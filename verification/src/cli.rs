//! Reading the command line.
//!
//! Words that do not begin with `-` are positionals. `--` ends the
//! flags: everything after it is positional. `-i` or `-input` and `-o`
//! or `-output` each take a path; `-include-dotfiles` takes nothing;
//! `-compress` takes the name of a method, in any case. Any other word
//! that begins with `-` is kept as a positional and reported.

use vstd::prelude::*;
use vstd::string::StrSliceExecFns;
use crate::compression::DataCompression;
use crate::text::str_eq;

verus! {

/// What the command line asks for, apart from the subcommand.
#[derive(Debug, Clone)]
pub struct Opts {
    /// The file to read from; the standard input if there is none.
    pub input: Option<String>,
    /// The file or directory to write to; the standard output, or the
    /// current directory, if there is none.
    pub output: Option<String>,
    /// Whether dotfiles are packed too.
    pub include_dotfiles: bool,
    /// How payloads are stored.
    pub compression_method: DataCompression,
}

/// What the options are, apart from how memory holds them.
pub ghost struct OptsView {
    pub input: Option<Seq<char>>,
    pub output: Option<Seq<char>>,
    pub include_dotfiles: bool,
    pub compression_method: DataCompression,
}

/// The text of an optional string.
pub open spec fn opt_text(s: Option<String>) -> Option<Seq<char>> {
    match s {
        Some(text) => Some(text@),
        None => None,
    }
}

impl View for Opts {
    type V = OptsView;

    open spec fn view(&self) -> OptsView {
        OptsView {
            input: opt_text(self.input),
            output: opt_text(self.output),
            include_dotfiles: self.include_dotfiles,
            compression_method: self.compression_method,
        }
    }
}

/// The options when the command line sets none.
pub open spec fn spec_default_opts() -> OptsView {
    OptsView {
        input: None,
        output: None,
        include_dotfiles: false,
        compression_method: DataCompression::Brotli,
    }
}

impl Default for Opts {
    fn default() -> (opts: Opts)
        ensures
            opts@ == spec_default_opts(),
    {
        Opts {
            input: None,
            output: None,
            include_dotfiles: false,
            compression_method: DataCompression::default(),
        }
    }
}

/// How a command line can be wrong.
#[derive(Debug, Clone, Copy, PartialEq, Eq, Structural)]
pub enum UsageError {
    /// `-input` was the last word.
    MissingInputPath,
    /// `-output` was the last word.
    MissingOutputPath,
    /// `-compress` was the last word, or the word after it names no
    /// method.
    InvalidCompression,
    /// No subcommand was given.
    MissingSubcommand,
    /// The subcommand is none of `pack`, `unpack` and `read`.
    InvalidSubcommand,
}

impl UsageError {
    /// What to tell the user.
    pub open spec fn spec_message(self) -> Seq<char> {
        match self {
            UsageError::MissingInputPath => "after -input, a file path is expected"@,
            UsageError::MissingOutputPath => "after -output, a file path is expected"@,
            UsageError::InvalidCompression => "after -compress, a compression method is expected: none or brotli"@,
            UsageError::MissingSubcommand => "expected a subcommand: pack, unpack or read"@,
            UsageError::InvalidSubcommand => "invalid subcommand: expected pack, unpack or read"@,
        }
    }

    /// The text that says what is wrong with the command line.
    pub fn message(self) -> (text: &'static str)
        ensures
            text@ == self.spec_message(),
    {
        match self {
            UsageError::MissingInputPath => "after -input, a file path is expected",
            UsageError::MissingOutputPath => "after -output, a file path is expected",
            UsageError::InvalidCompression => "after -compress, a compression method is expected: none or brotli",
            UsageError::MissingSubcommand => "expected a subcommand: pack, unpack or read",
            UsageError::InvalidSubcommand => "invalid subcommand: expected pack, unpack or read",
        }
    }
}

/// A command line taken apart.
#[derive(Debug, Clone)]
pub struct ParsedArgs {
    /// The options.
    pub opts: Opts,
    /// The positionals, in order.
    pub positionals: Vec<String>,
    /// The flags that were not recognized, in order. Each is among the
    /// positionals too.
    pub unrecognized: Vec<String>,
}

/// What a parsed command line is, apart from how memory holds it.
pub ghost struct ParsedView {
    pub opts: OptsView,
    pub positionals: Seq<Seq<char>>,
    pub unrecognized: Seq<Seq<char>>,
}

/// The texts of a vector of strings.
pub open spec fn texts(words: Seq<String>) -> Seq<Seq<char>> {
    words.map_values(|w: String| w@)
}

impl View for ParsedArgs {
    type V = ParsedView;

    open spec fn view(&self) -> ParsedView {
        ParsedView {
            opts: self.opts@,
            positionals: texts(self.positionals@),
            unrecognized: texts(self.unrecognized@),
        }
    }
}

/// What `str::to_lowercase` makes of a text.
pub uninterp spec fn spec_lowercase(text: Seq<char>) -> Seq<char>;

/// `str::to_lowercase` of std: the text in lower case, as Unicode
/// defines it. The result depends on the text alone.
#[verifier::external_body]
fn lowercase(text: &str) -> (lower: String)
    ensures
        lower@ == spec_lowercase(text@),
{
    text.to_lowercase()
}

/// Whether a word begins with `-`.
pub open spec fn spec_is_flag(word: Seq<char>) -> bool {
    word.len() > 0 && word[0] == '-'
}

/// What a command line without any word stands for.
pub open spec fn spec_nothing_parsed() -> ParsedView {
    ParsedView { opts: spec_default_opts(), positionals: Seq::empty(), unrecognized: Seq::empty() }
}

/// What the words from the `i`-th on add to what the words before them
/// have given.
pub open spec fn spec_parse_from(args: Seq<Seq<char>>, i: int, acc: ParsedView) -> Result<
    ParsedView,
    UsageError,
>
    decreases args.len() - i,
{
    if i < 0 || i >= args.len() {
        Ok(acc)
    } else {
        let word = args[i];
        if !spec_is_flag(word) {
            spec_parse_from(
                args,
                i + 1,
                ParsedView { positionals: acc.positionals.push(word), ..acc },
            )
        } else if word == "--"@ {
            Ok(ParsedView { positionals: acc.positionals + args.skip(i + 1), ..acc })
        } else if word == "-i"@ || word == "-input"@ {
            if i + 1 >= args.len() {
                Err(UsageError::MissingInputPath)
            } else {
                spec_parse_from(
                    args,
                    i + 2,
                    ParsedView { opts: OptsView { input: Some(args[i + 1]), ..acc.opts }, ..acc },
                )
            }
        } else if word == "-o"@ || word == "-output"@ {
            if i + 1 >= args.len() {
                Err(UsageError::MissingOutputPath)
            } else {
                spec_parse_from(
                    args,
                    i + 2,
                    ParsedView { opts: OptsView { output: Some(args[i + 1]), ..acc.opts }, ..acc },
                )
            }
        } else if word == "-include-dotfiles"@ {
            spec_parse_from(
                args,
                i + 1,
                ParsedView { opts: OptsView { include_dotfiles: true, ..acc.opts }, ..acc },
            )
        } else if word == "-compress"@ {
            if i + 1 >= args.len() {
                Err(UsageError::InvalidCompression)
            } else {
                match DataCompression::spec_from_str(spec_lowercase(args[i + 1])) {
                    Some(method) => spec_parse_from(
                        args,
                        i + 2,
                        ParsedView {
                            opts: OptsView { compression_method: method, ..acc.opts },
                            ..acc
                        },
                    ),
                    None => Err(UsageError::InvalidCompression),
                }
            }
        } else {
            spec_parse_from(
                args,
                i + 1,
                ParsedView {
                    positionals: acc.positionals.push(word),
                    unrecognized: acc.unrecognized.push(word),
                    ..acc
                },
            )
        }
    }
}

/// What a command line stands for.
pub open spec fn spec_parse_flags(args: Seq<Seq<char>>) -> Result<ParsedView, UsageError> {
    spec_parse_from(args, 0, spec_nothing_parsed())
}

/// Whether a word begins with `-`.
pub fn is_flag(word: &str) -> (flag: bool)
    ensures
        flag == spec_is_flag(word@),
{
    word.unicode_len() > 0 && word.get_char(0) == '-'
}

/// The method that the word after `-compress` names, in any case.
pub fn compression_named(word: &str) -> (r: Option<DataCompression>)
    ensures
        r == DataCompression::spec_from_str(spec_lowercase(word@)),
{
    let lower = lowercase(word);
    match DataCompression::from_str(lower.as_str()) {
        Ok(method) => Some(method),
        Err(_) => None,
    }
}

/// Takes a command line apart, without the program's name.
pub fn parse_flags(args: Vec<String>) -> (r: Result<ParsedArgs, UsageError>)
    ensures
        match r {
            Ok(parsed) => spec_parse_flags(texts(args@)) == Ok::<ParsedView, UsageError>(parsed@),
            Err(e) => spec_parse_flags(texts(args@)) == Err::<ParsedView, UsageError>(e),
        },
{
    let ghost words = texts(args@);
    let mut parsed = ParsedArgs {
        opts: Opts::default(),
        positionals: Vec::new(),
        unrecognized: Vec::new(),
    };
    let mut i: usize = 0;
    proof {
        assert(parsed@.positionals =~= Seq::<Seq<char>>::empty());
        assert(parsed@.unrecognized =~= Seq::<Seq<char>>::empty());
    }
    while i < args.len()
        invariant
            i <= args.len(),
            words == texts(args@),
            spec_parse_flags(words) == spec_parse_from(words, i as int, parsed@),
        decreases args.len() - i,
    {
        let word = args[i].as_str();
        let ghost before = parsed@;
        assert(words[i as int] == word@);
        if !is_flag(word) {
            parsed.positionals.push(args[i].clone());
            proof {
                assert(parsed@.positionals =~= before.positionals.push(word@));
            }
            i = i + 1;
        } else if str_eq(word, "--") {
            let mut j: usize = i + 1;
            while j < args.len()
                invariant
                    i < j <= args.len(),
                    words == texts(args@),
                    parsed@.opts == before.opts,
                    parsed@.unrecognized == before.unrecognized,
                    parsed@.positionals == before.positionals + words.subrange(i + 1, j as int),
                decreases args.len() - j,
            {
                let ghost sofar = parsed@.positionals;
                parsed.positionals.push(args[j].clone());
                j = j + 1;
                proof {
                    assert(parsed@.positionals =~= sofar.push(words[j - 1]));
                    assert(parsed@.positionals =~= before.positionals + words.subrange(
                        i + 1,
                        j as int,
                    ));
                }
            }
            proof {
                assert(words.subrange(i + 1, j as int) =~= words.skip(i + 1));
            }
            return Ok(parsed);
        } else if str_eq(word, "-i") || str_eq(word, "-input") {
            if i + 1 >= args.len() {
                return Err(UsageError::MissingInputPath);
            }
            assert(words[i + 1] == args@[i + 1]@);
            parsed.opts.input = Some(args[i + 1].clone());
            i = i + 2;
        } else if str_eq(word, "-o") || str_eq(word, "-output") {
            if i + 1 >= args.len() {
                return Err(UsageError::MissingOutputPath);
            }
            assert(words[i + 1] == args@[i + 1]@);
            parsed.opts.output = Some(args[i + 1].clone());
            i = i + 2;
        } else if str_eq(word, "-include-dotfiles") {
            parsed.opts.include_dotfiles = true;
            i = i + 1;
        } else if str_eq(word, "-compress") {
            if i + 1 >= args.len() {
                return Err(UsageError::InvalidCompression);
            }
            assert(words[i + 1] == args@[i + 1]@);
            match compression_named(args[i + 1].as_str()) {
                Some(method) => {
                    parsed.opts.compression_method = method;
                },
                None => {
                    return Err(UsageError::InvalidCompression);
                },
            }
            i = i + 2;
        } else {
            parsed.positionals.push(args[i].clone());
            parsed.unrecognized.push(args[i].clone());
            proof {
                assert(parsed@.positionals =~= before.positionals.push(word@));
                assert(parsed@.unrecognized =~= before.unrecognized.push(word@));
            }
            i = i + 1;
        }
    }
    Ok(parsed)
}

/// What the program is asked to do.
#[derive(Debug, Clone)]
pub enum Command {
    /// Pack the files and directories at these paths.
    Pack(Vec<String>),
    /// Unpack an archive.
    Unpack,
    /// List an archive.
    Read,
}

/// What a command is, apart from how memory holds it.
pub ghost enum CommandView {
    Pack(Seq<Seq<char>>),
    Unpack,
    Read,
}

impl View for Command {
    type V = CommandView;

    open spec fn view(&self) -> CommandView {
        match self {
            Command::Pack(paths) => CommandView::Pack(texts(paths@)),
            Command::Unpack => CommandView::Unpack,
            Command::Read => CommandView::Read,
        }
    }
}

/// The command that the positionals stand for: the first names it, and
/// `pack` takes the others as its paths.
pub open spec fn spec_parse_command(positionals: Seq<Seq<char>>) -> Result<CommandView, UsageError> {
    if positionals.len() == 0 {
        Err(UsageError::MissingSubcommand)
    } else if positionals[0] == "pack"@ {
        Ok(CommandView::Pack(positionals.skip(1)))
    } else if positionals[0] == "unpack"@ {
        Ok(CommandView::Unpack)
    } else if positionals[0] == "read"@ {
        Ok(CommandView::Read)
    } else {
        Err(UsageError::InvalidSubcommand)
    }
}

/// Reads the subcommand off the positionals.
pub fn parse_command(positionals: Vec<String>) -> (r: Result<Command, UsageError>)
    ensures
        match r {
            Ok(command) => spec_parse_command(texts(positionals@)) == Ok::<
                CommandView,
                UsageError,
            >(command@),
            Err(e) => spec_parse_command(texts(positionals@)) == Err::<CommandView, UsageError>(e),
        },
{
    if positionals.len() == 0 {
        return Err(UsageError::MissingSubcommand);
    }
    let ghost words = texts(positionals@);
    let name = positionals[0].as_str();
    assert(words[0] == name@);
    if str_eq(name, "pack") {
        let mut paths: Vec<String> = Vec::new();
        let mut j: usize = 1;
        while j < positionals.len()
            invariant
                1 <= j <= positionals.len(),
                words == texts(positionals@),
                texts(paths@) == words.subrange(1, j as int),
            decreases positionals.len() - j,
        {
            let ghost sofar = texts(paths@);
            paths.push(positionals[j].clone());
            j = j + 1;
            proof {
                assert(texts(paths@) =~= sofar.push(words[j - 1]));
                assert(texts(paths@) =~= words.subrange(1, j as int));
            }
        }
        proof {
            assert(words.subrange(1, j as int) =~= words.skip(1));
        }
        Ok(Command::Pack(paths))
    } else if str_eq(name, "unpack") {
        Ok(Command::Unpack)
    } else if str_eq(name, "read") {
        Ok(Command::Read)
    } else {
        Err(UsageError::InvalidSubcommand)
    }
}

} // verus!
