//! A file as the pipelines hand it over: what is packed, and what
//! unpacking gives back.

use vstd::prelude::*;

verus! {

/// A file with what the archive keeps of it.
#[derive(Debug, Clone)]
pub struct FileRecord {
    /// The path of the file, relative to where the archive is restored.
    pub name: String,
    /// The permission bits of the file, as the platform gave them.
    pub mode: u32,
    /// When the file was last modified, in seconds since the epoch.
    pub modified: u64,
    /// When the file was last read, in seconds since the epoch.
    pub accessed: u64,
    /// The bytes of the file.
    pub contents: Vec<u8>,
}

/// What a file is, apart from how memory holds it.
pub ghost struct FileView {
    pub name: Seq<char>,
    pub mode: u32,
    pub modified: u64,
    pub accessed: u64,
    pub contents: Seq<u8>,
}

impl View for FileRecord {
    type V = FileView;

    open spec fn view(&self) -> FileView {
        FileView {
            name: self.name@,
            mode: self.mode,
            modified: self.modified,
            accessed: self.accessed,
            contents: self.contents@,
        }
    }
}

/// The files of a vector, each as what it is.
pub open spec fn file_views(files: Seq<FileRecord>) -> Seq<FileView> {
    files.map_values(|f: FileRecord| f@)
}

/// Whether some file of `dir` has the given name.
pub open spec fn has_name(dir: Seq<FileView>, name: Seq<char>) -> bool {
    exists|i: int| 0 <= i < dir.len() && (#[trigger] dir[i]).name == name
}

/// Whether a file named `name` is among `dir`.
pub fn contains_name(dir: &Vec<FileRecord>, name: &String) -> (found: bool)
    ensures
        found == has_name(file_views(dir@), name@),
{
    let mut i: usize = 0;
    while i < dir.len()
        invariant
            i <= dir.len(),
            forall|j: int| 0 <= j < i ==> (#[trigger] file_views(dir@)[j]).name != name@,
        decreases dir.len() - i,
    {
        if dir[i].name == *name {
            assert(file_views(dir@)[i as int].name == name@);
            return true;
        }
        i = i + 1;
    }
    false
}

} // verus!
