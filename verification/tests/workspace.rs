use notebook::workspace::{
    parse_command_line_args, parse_language, Arg, ArgsError, CommandLineArgs, Language,
    SampleKind, SampleReader,
};

fn args(words: &[&str]) -> Vec<Arg> {
    words
        .iter()
        .map(|w| Arg { text: Some(w.to_string()), lossy: w.to_string() })
        .collect()
}

fn parse(words: &[&str]) -> Result<(String, usize, Language), ArgsError> {
    parse_command_line_args(&args(words)).map(|c| (c.directory, c.directory_arg, c.language))
}

#[test]
fn main_file_by_language() {
    let c = CommandLineArgs { directory: "a".to_string(), directory_arg: 1, language: Language::C };
    assert_eq!(c.main_file(), "main.c");
    let r =
        CommandLineArgs { directory: "a".to_string(), directory_arg: 1, language: Language::Rust };
    assert_eq!(r.main_file(), "src/main.rs");
}

#[test]
fn language_names() {
    assert_eq!(parse_language("c"), Some(Language::C));
    assert_eq!(parse_language("C"), Some(Language::C));
    assert_eq!(parse_language("rs"), Some(Language::Rust));
    assert_eq!(parse_language("RS"), Some(Language::Rust));
    assert_eq!(parse_language("rust"), Some(Language::Rust));
    assert_eq!(parse_language("RuSt"), Some(Language::Rust));
    assert_eq!(parse_language(""), None);
    assert_eq!(parse_language("cc"), None);
    assert_eq!(parse_language("rus"), None);
    assert_eq!(parse_language("rust "), None);
    assert_eq!(parse_language("python"), None);
    // a character 32 below a lower-case letter that is no capital letter
    assert_eq!(parse_language("R\u{55}ST"), Some(Language::Rust));
    assert_eq!(parse_language("\u{43}"), Some(Language::C));
    assert_eq!(parse_language("#"), None);
}

#[test]
fn parse_by_position() {
    assert_eq!(parse(&["new", "abc"]), Ok(("abc".to_string(), 1, Language::Rust)));
    assert_eq!(parse(&["new", "abc", "c"]), Ok(("abc".to_string(), 1, Language::C)));
    assert_eq!(parse(&["new", "abc", "RS"]), Ok(("abc".to_string(), 1, Language::Rust)));
}

#[test]
fn parse_by_flag() {
    assert_eq!(parse(&["new", "-d", "abc"]), Ok(("abc".to_string(), 2, Language::Rust)));
    assert_eq!(parse(&["new", "--dir", "abc", "-l", "c"]), Ok(("abc".to_string(), 2, Language::C)));
    assert_eq!(
        parse(&["new", "--language", "rust", "--directory", "x"]),
        Ok(("x".to_string(), 4, Language::Rust))
    );
    assert_eq!(parse(&["new", "--lang", "c", "x"]), Ok(("x".to_string(), 3, Language::C)));
    // with the directory given by flag, the first positional is the language
    assert_eq!(parse(&["new", "c", "-d", "x"]), Ok(("x".to_string(), 3, Language::C)));
    // a flag's value is taken as it is, even where it looks like a flag
    assert_eq!(parse(&["new", "-d", "-l"]), Ok(("-l".to_string(), 2, Language::Rust)));
}

#[test]
fn parse_errors() {
    assert_eq!(parse(&["new"]), Err(ArgsError::MissingDirectory));
    assert_eq!(parse(&[]), Err(ArgsError::MissingDirectory));
    assert_eq!(parse(&["new", "-l", "c"]), Err(ArgsError::MissingDirectory));
    assert_eq!(parse(&["new", "-d", "a", "--dir", "b"]), Err(ArgsError::DirectoryTwice));
    assert_eq!(parse(&["new", "-l", "c", "--lang", "c"]), Err(ArgsError::LanguageTwice));
    assert_eq!(parse(&["new", "a", "b", "c"]), Err(ArgsError::TooMany));
    assert_eq!(parse(&["new", "-d", "a", "-l", "c", "x"]), Err(ArgsError::TooManyPositional));
    assert_eq!(parse(&["new", "a", "pascal"]), Err(ArgsError::InvalidLanguage(2)));
    assert_eq!(parse(&["new", "-l", "go", "a"]), Err(ArgsError::InvalidLanguage(2)));
    assert_eq!(parse(&["new", "a", "-d"]), Err(ArgsError::MissingValue(2)));
    assert_eq!(parse(&["new", "-l"]), Err(ArgsError::MissingValue(1)));
    // a repeated flag is reported before its missing value
    assert_eq!(parse(&["new", "-d", "a", "-d"]), Err(ArgsError::DirectoryTwice));
}

#[test]
fn parse_unreadable_argument() {
    let mut raw = args(&["new", "abc"]);
    raw.push(Arg { text: None, lossy: "c\u{fffd}".to_string() });
    assert_eq!(parse_command_line_args(&raw).err(), Some(ArgsError::Unparsable(2)));
    // as the value of a flag it is not looked at
    let mut raw = args(&["new", "-d"]);
    raw.push(Arg { text: None, lossy: "x\u{fffd}".to_string() });
    let parsed = parse_command_line_args(&raw).ok().map(|c| (c.directory, c.directory_arg));
    assert_eq!(parsed, Some(("x\u{fffd}".to_string(), 2)));
}

#[test]
fn sample_extensions() {
    assert_eq!(SampleKind::Input.extension(), "in");
    assert_eq!(SampleKind::Output.extension(), "out");
    assert_eq!(SampleKind::Answer.extension(), "ans");
}

#[test]
fn sample_reader_walks_through_two_cases() {
    let mut reader = SampleReader::new();
    let mut created: Vec<(usize, SampleKind, String)> = Vec::new();
    let lines = [
        "InputCopy", "3", "1 2 3", "OutputCopy", "6", "=", "InputCopy", "1", "7", "OutputCopy",
        "7", "Note", "ignored",
    ];
    let mut fed = 0;
    for line in lines {
        let step = reader.feed(line);
        fed += 1;
        for f in step.files {
            created.push((f.case_id, f.kind, f.content));
        }
        if step.done {
            break;
        }
    }
    assert_eq!(fed, 12);
    assert_eq!(
        created,
        vec![
            (0, SampleKind::Input, "3\n1 2 3\n".to_string()),
            (0, SampleKind::Output, String::new()),
            (0, SampleKind::Answer, "6\n".to_string()),
            (1, SampleKind::Input, "1\n7\n".to_string()),
            (1, SampleKind::Output, String::new()),
            (1, SampleKind::Answer, "7\n".to_string()),
        ]
    );
    assert_eq!(reader.case_id, 2);
    assert!(reader.is_input);
    assert_eq!(reader.content, "");
}

#[test]
fn sample_reader_single_steps() {
    let mut reader = SampleReader::new();
    let step = reader.feed("InputCopy");
    assert!(step.files.is_empty() && !step.done);
    assert_eq!(reader.content, "");
    let step = reader.feed("a b");
    assert!(step.files.is_empty() && !step.done);
    assert_eq!(reader.content, "a b\n");
    let step = reader.feed("=");
    assert_eq!(step.files.len(), 1);
    assert_eq!(step.files[0].content, "a b\n");
    assert!(!step.done);
    assert!(!reader.is_input);
    assert_eq!(reader.case_id, 0);
    let step = reader.feed("Note");
    assert!(step.done);
    assert_eq!(step.files.len(), 2);
    assert_eq!(step.files[1].content, "");
    assert_eq!(reader.case_id, 1);
}

#[test]
fn error_messages() {
    assert_eq!(ArgsError::DirectoryTwice.message(), "Specified directory more than once");
    assert_eq!(ArgsError::LanguageTwice.message(), "Specified language more than once");
    assert_eq!(ArgsError::Unparsable(3).message(), "Could not parse argument ");
    assert_eq!(
        ArgsError::TooMany.message(),
        "Too many positional arguments, maximum 2: directory and language"
    );
    assert_eq!(ArgsError::TooManyPositional.message(), "Too many positional arguments");
    assert_eq!(
        ArgsError::MissingDirectory.message(),
        "Directory argument missing. Use -d/--dir/--directory or give it as positional argument"
    );
    assert_eq!(ArgsError::InvalidLanguage(2).message(), "Invalid language ");
    assert_eq!(ArgsError::MissingValue(1).message(), "Flag without a value");
}
