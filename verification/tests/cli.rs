use simple_archive::cli::{parse_command, parse_flags, Command, Opts, UsageError};
use simple_archive::compression::DataCompression;

fn words(list: &[&str]) -> Vec<String> {
    list.iter().map(|w| w.to_string()).collect()
}

#[test]
fn defaults() {
    let opts = Opts::default();
    assert_eq!(opts.input, None);
    assert_eq!(opts.output, None);
    assert!(!opts.include_dotfiles);
    assert_eq!(opts.compression_method, DataCompression::Brotli);
    assert_eq!(DataCompression::default(), DataCompression::Brotli);
    let parsed = parse_flags(Vec::new()).unwrap();
    assert!(parsed.positionals.is_empty());
    assert!(parsed.unrecognized.is_empty());
    assert_eq!(parsed.opts.compression_method, DataCompression::Brotli);
}

#[test]
fn flags_and_positionals() {
    let parsed = parse_flags(words(&[
        "pack", "-o", "out.arc", "dir", "-include-dotfiles", "-input", "in", "-compress", "none", "more",
    ]))
    .unwrap();
    assert_eq!(parsed.positionals, words(&["pack", "dir", "more"]));
    assert!(parsed.unrecognized.is_empty());
    assert_eq!(parsed.opts.output, Some("out.arc".to_string()));
    assert_eq!(parsed.opts.input, Some("in".to_string()));
    assert!(parsed.opts.include_dotfiles);
    assert_eq!(parsed.opts.compression_method, DataCompression::Uncompressed);
}

#[test]
fn short_and_long_forms() {
    let parsed = parse_flags(words(&["-i", "a", "-output", "b"])).unwrap();
    assert_eq!(parsed.opts.input, Some("a".to_string()));
    assert_eq!(parsed.opts.output, Some("b".to_string()));
    let parsed = parse_flags(words(&["-i", "a", "-i", "b"])).unwrap();
    assert_eq!(parsed.opts.input, Some("b".to_string()));
}

#[test]
fn a_flag_may_be_taken_as_a_path() {
    let parsed = parse_flags(words(&["-o", "-i", "x"])).unwrap();
    assert_eq!(parsed.opts.output, Some("-i".to_string()));
    assert_eq!(parsed.opts.input, None);
    assert_eq!(parsed.positionals, words(&["x"]));
}

#[test]
fn double_dash_ends_the_flags() {
    let parsed = parse_flags(words(&["pack", "--", "-o", "--", "-x"])).unwrap();
    assert_eq!(parsed.positionals, words(&["pack", "-o", "--", "-x"]));
    assert!(parsed.unrecognized.is_empty());
    assert_eq!(parsed.opts.output, None);
    let parsed = parse_flags(words(&["a", "--"])).unwrap();
    assert_eq!(parsed.positionals, words(&["a"]));
}

#[test]
fn unrecognized_flags_become_positionals() {
    let parsed = parse_flags(words(&["-v", "read", "-", "--output", "-I"])).unwrap();
    assert_eq!(parsed.positionals, words(&["-v", "read", "-", "--output", "-I"]));
    assert_eq!(parsed.unrecognized, words(&["-v", "-", "--output", "-I"]));
}

#[test]
fn compression_names_in_any_case() {
    for (word, method) in [
        ("none", DataCompression::Uncompressed),
        ("NONE", DataCompression::Uncompressed),
        ("brotli", DataCompression::Brotli),
        ("Brotli", DataCompression::Brotli),
        ("DEFAULT", DataCompression::Brotli),
        ("default", DataCompression::Brotli),
    ] {
        let parsed = parse_flags(words(&["-compress", "none", "-compress", word])).unwrap();
        assert_eq!(parsed.opts.compression_method, method);
    }
    let parsed = parse_flags(words(&["-compress", "None"])).unwrap();
    assert_eq!(parsed.opts.compression_method, DataCompression::Uncompressed);
}

#[test]
fn compression_names_exactly() {
    assert_eq!(DataCompression::from_str("none"), Ok(DataCompression::Uncompressed));
    assert_eq!(DataCompression::from_str("brotli"), Ok(DataCompression::Brotli));
    assert_eq!(DataCompression::from_str("default"), Ok(DataCompression::Brotli));
    assert_eq!(DataCompression::from_str("None"), Err("unsupported compression format"));
    assert_eq!(DataCompression::from_str(""), Err("unsupported compression format"));
    assert_eq!(DataCompression::from_str("gzip"), Err("unsupported compression format"));
    assert_eq!(DataCompression::from_str("brotli "), Err("unsupported compression format"));
}

#[test]
fn compression_tags() {
    assert_eq!(DataCompression::Uncompressed.tag(), 0);
    assert_eq!(DataCompression::Brotli.tag(), 1);
    assert_eq!(DataCompression::try_from(0), Ok(DataCompression::Uncompressed));
    assert_eq!(DataCompression::try_from(1), Ok(DataCompression::Brotli));
    for tag in 2..=255u8 {
        assert_eq!(
            DataCompression::try_from(tag),
            Err(simple_archive::error::ArchiveError::UnsupportedCompressionTag)
        );
    }
}

#[test]
fn missing_values() {
    assert_eq!(parse_flags(words(&["x", "-i"])).unwrap_err(), UsageError::MissingInputPath);
    assert_eq!(parse_flags(words(&["-input"])).unwrap_err(), UsageError::MissingInputPath);
    assert_eq!(parse_flags(words(&["-o"])).unwrap_err(), UsageError::MissingOutputPath);
    assert_eq!(parse_flags(words(&["-output"])).unwrap_err(), UsageError::MissingOutputPath);
    assert_eq!(parse_flags(words(&["-compress"])).unwrap_err(), UsageError::InvalidCompression);
    assert_eq!(
        parse_flags(words(&["-compress", "zip"])).unwrap_err(),
        UsageError::InvalidCompression
    );
    assert_eq!(
        parse_flags(words(&["-compress", "-i", "-i"])).unwrap_err(),
        UsageError::InvalidCompression
    );
}

#[test]
fn the_first_error_wins() {
    assert_eq!(
        parse_flags(words(&["-compress", "zip", "-i"])).unwrap_err(),
        UsageError::InvalidCompression
    );
    assert_eq!(
        parse_flags(words(&["-o", "x", "-i"])).unwrap_err(),
        UsageError::MissingInputPath
    );
}

#[test]
fn subcommands() {
    match parse_command(words(&["pack", "a", "b"])).unwrap() {
        Command::Pack(paths) => assert_eq!(paths, words(&["a", "b"])),
        other => panic!("{:?}", other),
    }
    match parse_command(words(&["pack"])).unwrap() {
        Command::Pack(paths) => assert!(paths.is_empty()),
        other => panic!("{:?}", other),
    }
    assert!(matches!(parse_command(words(&["unpack"])), Ok(Command::Unpack)));
    assert!(matches!(parse_command(words(&["unpack", "extra"])), Ok(Command::Unpack)));
    assert!(matches!(parse_command(words(&["read"])), Ok(Command::Read)));
    assert_eq!(parse_command(Vec::new()).unwrap_err(), UsageError::MissingSubcommand);
    assert_eq!(parse_command(words(&["list"])).unwrap_err(), UsageError::InvalidSubcommand);
    assert_eq!(parse_command(words(&["Pack"])).unwrap_err(), UsageError::InvalidSubcommand);
    assert_eq!(parse_command(words(&[""])).unwrap_err(), UsageError::InvalidSubcommand);
}
