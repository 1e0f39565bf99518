//! The rules of a tool that sets up a workspace for a problem: how its
//! command line is read, and how pasted sample test cases turn into files.

use vstd::prelude::*;
use vstd::string::{StrSliceExecFns, StringExecFns};

verus! {

/// The language of a solution.
#[derive(Copy, Clone, Debug, PartialEq, Eq, Structural)]
pub enum Language {
    C,
    Rust,
}

/// What the command line asks for: the directory of the workspace and the
/// language of the solution.
pub struct CommandLineArgs {
    /// The directory as text, unreadable bytes replaced.
    pub directory: String,
    /// The position, among the arguments, of the one that names the
    /// directory.
    pub directory_arg: usize,
    pub language: Language,
}

/// One argument of the command line: its text where it is valid Unicode,
/// and its text with unreadable bytes replaced.
pub struct Arg {
    pub text: Option<String>,
    pub lossy: String,
}

/// Why a command line was not accepted. A number is the position of the
/// argument at fault.
#[derive(Copy, Clone, Debug, PartialEq, Eq, Structural)]
pub enum ArgsError {
    DirectoryTwice,
    LanguageTwice,
    MissingValue(usize),
    Unparsable(usize),
    TooMany,
    TooManyPositional,
    MissingDirectory,
    InvalidLanguage(usize),
}

impl ArgsError {
    /// The words that tell the user what is wrong. For `Unparsable` and
    /// `InvalidLanguage` they end in a space, and the argument at fault is
    /// to follow.
    pub open spec fn wording(&self) -> Seq<char> {
        match *self {
            ArgsError::DirectoryTwice => "Specified directory more than once"@,
            ArgsError::LanguageTwice => "Specified language more than once"@,
            ArgsError::MissingValue(_) => "Flag without a value"@,
            ArgsError::Unparsable(_) => "Could not parse argument "@,
            ArgsError::TooMany => "Too many positional arguments, maximum 2: directory and language"@,
            ArgsError::TooManyPositional => "Too many positional arguments"@,
            ArgsError::MissingDirectory => "Directory argument missing. Use -d/--dir/--directory or give it as positional argument"@,
            ArgsError::InvalidLanguage(_) => "Invalid language "@,
        }
    }

    /// The words that tell the user what is wrong.
    pub fn message(&self) -> (r: &'static str)
        ensures
            r@ == self.wording(),
    {
        match self {
            ArgsError::DirectoryTwice => "Specified directory more than once",
            ArgsError::LanguageTwice => "Specified language more than once",
            ArgsError::MissingValue(_) => "Flag without a value",
            ArgsError::Unparsable(_) => "Could not parse argument ",
            ArgsError::TooMany => "Too many positional arguments, maximum 2: directory and language",
            ArgsError::TooManyPositional => "Too many positional arguments",
            ArgsError::MissingDirectory => "Directory argument missing. Use -d/--dir/--directory or give it as positional argument",
            ArgsError::InvalidLanguage(_) => "Invalid language ",
        }
    }
}

/// What a scan of the arguments has found so far: the positions of the
/// directory and of the language given by flag, and of the arguments given
/// by position.
pub struct Found {
    pub directory: Option<int>,
    pub language: Option<int>,
    pub positional: Seq<int>,
}

/// The text of an argument, where it has one.
pub open spec fn text_of(a: Arg) -> Option<Seq<char>> {
    match a.text {
        Some(s) => Some(s@),
        None => None,
    }
}

/// `t` is one of the flags that announce the directory.
pub open spec fn is_directory_flag(t: Seq<char>) -> bool {
    t == "-d"@ || t == "--dir"@ || t == "--directory"@
}

/// `t` is one of the flags that announce the language.
pub open spec fn is_language_flag(t: Seq<char>) -> bool {
    t == "-l"@ || t == "--lang"@ || t == "--language"@
}

/// The lower-case form of an ASCII capital letter; any other character
/// unchanged.
pub open spec fn ascii_lower(c: char) -> char {
    if 'A' <= c && c <= 'Z' {
        ((c as u32) + 32) as char
    } else {
        c
    }
}

/// The language that `t` names, ASCII letters compared without regard to
/// case: `c`, or `rs` or `rust`.
pub open spec fn language_named(t: Seq<char>) -> Option<Language> {
    let low = t.map_values(|c: char| ascii_lower(c));
    if low == seq!['c'] {
        Some(Language::C)
    } else if low == seq!['r', 's'] || low == seq!['r', 'u', 's', 't'] {
        Some(Language::Rust)
    } else {
        None
    }
}

/// The scan of the arguments from position `i` on. A flag takes the next
/// argument as its value, whatever it is; every other argument counts as
/// positional.
pub open spec fn scan(args: Seq<Arg>, i: int, found: Found) -> Result<Found, ArgsError>
    decreases args.len() - i,
{
    if i < 0 || i >= args.len() {
        Ok(found)
    } else {
        match text_of(args[i]) {
            None => Err(ArgsError::Unparsable(i as usize)),
            Some(t) => if is_directory_flag(t) {
                if found.directory is Some {
                    Err(ArgsError::DirectoryTwice)
                } else if i + 1 >= args.len() {
                    Err(ArgsError::MissingValue(i as usize))
                } else {
                    scan(args, i + 2, Found { directory: Some(i + 1), ..found })
                }
            } else if is_language_flag(t) {
                if found.language is Some {
                    Err(ArgsError::LanguageTwice)
                } else if i + 1 >= args.len() {
                    Err(ArgsError::MissingValue(i as usize))
                } else {
                    scan(args, i + 2, Found { language: Some(i + 1), ..found })
                }
            } else {
                scan(args, i + 1, Found { positional: found.positional.push(i), ..found })
            },
        }
    }
}

/// The positional arguments fill in, in order, what no flag gave: first the
/// directory, then the language.
pub open spec fn place(found: Found, k: int) -> Result<Found, ArgsError>
    decreases found.positional.len() - k,
{
    if k < 0 || k >= found.positional.len() {
        Ok(found)
    } else if found.directory is None {
        place(Found { directory: Some(found.positional[k]), ..found }, k + 1)
    } else if found.language is None {
        place(Found { language: Some(found.positional[k]), ..found }, k + 1)
    } else {
        Err(ArgsError::TooManyPositional)
    }
}

/// The positions of the directory and, where one is given, of the language
/// among the arguments, the first of which is the program's name.
pub open spec fn located(args: Seq<Arg>) -> Result<(int, Option<int>), ArgsError> {
    match scan(args, 1, Found { directory: None, language: None, positional: Seq::empty() }) {
        Err(e) => Err(e),
        Ok(found) => if found.positional.len() > 2 {
            Err(ArgsError::TooMany)
        } else {
            match place(found, 0) {
                Err(e) => Err(e),
                Ok(placed) => match placed.directory {
                    None => Err(ArgsError::MissingDirectory),
                    Some(d) => Ok((d, placed.language)),
                },
            }
        },
    }
}

/// What a command line asks for: the position of the directory and the
/// language, which is Rust where none is given.
pub open spec fn parsed(args: Seq<Arg>) -> Result<(int, Language), ArgsError> {
    match located(args) {
        Err(e) => Err(e),
        Ok((d, None)) => Ok((d, Language::Rust)),
        Ok((d, Some(l))) => match language_named(args[l].lossy@) {
            Some(language) => Ok((d, language)),
            None => Err(ArgsError::InvalidLanguage(l as usize)),
        },
    }
}

impl CommandLineArgs {
    /// The path, inside the workspace, of the file that holds the solution.
    pub fn main_file(&self) -> (r: &'static str)
        ensures
            r@ == match self.language {
                Language::C => "main.c"@,
                Language::Rust => "src/main.rs"@,
            },
    {
        match self.language {
            Language::C => "main.c",
            Language::Rust => "src/main.rs",
        }
    }
}

/// Whether `s` is the word `word`, which is in lower case, ASCII letters
/// compared without regard to case.
fn is_word(s: &str, word: &str) -> (r: bool)
    requires
        forall|i: int| 0 <= i < word@.len() ==> 'a' <= #[trigger] word@[i] <= 'z',
    ensures
        r == (s@.map_values(|c: char| ascii_lower(c)) == word@),
{
    let n = s.unicode_len();
    let ghost low = s@.map_values(|c: char| ascii_lower(c));
    if n != word.unicode_len() {
        return false;
    }
    let mut i: usize = 0;
    while i < n
        invariant
            i <= n,
            n == s@.len(),
            n == word@.len(),
            low == s@.map_values(|c: char| ascii_lower(c)),
            forall|k: int| 0 <= k < i ==> low[k] == word@[k],
            forall|k: int| 0 <= k < word@.len() ==> 'a' <= #[trigger] word@[k] <= 'z',
        decreases n - i,
    {
        let c = s.get_char(i);
        let w = word.get_char(i);
        let same = c == w || (c as u32) + 32 == (w as u32);
        if !same {
            return false;
        }
        i += 1;
    }
    assert(low =~= word@);
    true
}

/// The language that `s` names: `c`, or `rs` or `rust`, in any mix of
/// upper and lower case.
pub fn parse_language(s: &str) -> (r: Option<Language>)
    ensures
        r == language_named(s@),
{
    proof {
        reveal_strlit("c");
        reveal_strlit("rs");
        reveal_strlit("rust");
        assert("c"@ =~= seq!['c']);
        assert("rs"@ =~= seq!['r', 's']);
        assert("rust"@ =~= seq!['r', 'u', 's', 't']);
    }
    if is_word(s, "c") {
        Some(Language::C)
    } else if is_word(s, "rs") || is_word(s, "rust") {
        Some(Language::Rust)
    } else {
        None
    }
}

/// Whether `t` is one of the three words.
fn is_one_of(t: &String, a: &str, b: &str, c: &str) -> (r: bool)
    ensures
        r == (t@ == a@ || t@ == b@ || t@ == c@),
{
    *t == String::from_str(a) || *t == String::from_str(b) || *t == String::from_str(c)
}

/// Reads the command line, the program's name first: the directory after
/// `-d`, `--dir` or `--directory`, the language after `-l`, `--lang` or
/// `--language`, or both by position, the directory first.
pub fn parse_command_line_args(raw_args: &Vec<Arg>) -> (r: Result<CommandLineArgs, ArgsError>)
    ensures
        match r {
            Ok(c) => parsed(raw_args@) == Ok::<(int, Language), ArgsError>(
                (c.directory_arg as int, c.language),
            ) && c.directory_arg < raw_args@.len() && c.directory@
                == raw_args@[c.directory_arg as int].lossy@,
            Err(e) => parsed(raw_args@) == Err::<(int, Language), ArgsError>(e),
        },
{
    let mut directory: Option<usize> = None;
    let mut language: Option<usize> = None;
    let mut positional_args: Vec<usize> = Vec::new();
    let ghost start = Found { directory: None, language: None, positional: Seq::empty() };
    let mut i: usize = 1;
    assert(found_of(directory, language, positional_args@) == start) by {
        assert(positional_args@.map_values(|p: usize| p as int) =~= Seq::<int>::empty());
    }
    while i < raw_args.len()
        invariant
            1 <= i,
            start == (Found { directory: None, language: None, positional: Seq::empty() }),
            scan(raw_args@, i as int, found_of(directory, language, positional_args@)) == scan(
                raw_args@,
                1,
                start,
            ),
            directory is Some ==> directory->0 < raw_args@.len(),
            language is Some ==> language->0 < raw_args@.len(),
            forall|k: int|
                0 <= k < positional_args@.len() ==> #[trigger] positional_args@[k]
                    < raw_args@.len(),
        decreases raw_args.len() - i,
    {
        let ghost before = found_of(directory, language, positional_args@);
        match &raw_args[i].text {
            None => {
                return Err(ArgsError::Unparsable(i));
            },
            Some(t) => {
                if is_one_of(t, "-d", "--dir", "--directory") {
                    if directory.is_some() {
                        return Err(ArgsError::DirectoryTwice);
                    }
                    if i + 1 >= raw_args.len() {
                        return Err(ArgsError::MissingValue(i));
                    }
                    directory = Some(i + 1);
                    i += 1;
                } else if is_one_of(t, "-l", "--lang", "--language") {
                    if language.is_some() {
                        return Err(ArgsError::LanguageTwice);
                    }
                    if i + 1 >= raw_args.len() {
                        return Err(ArgsError::MissingValue(i));
                    }
                    language = Some(i + 1);
                    i += 1;
                } else {
                    positional_args.push(i);
                    assert(found_of(directory, language, positional_args@) == (Found {
                        positional: before.positional.push(i as int),
                        ..before
                    })) by {
                        assert(positional_args@.map_values(|p: usize| p as int)
                            =~= before.positional.push(i as int));
                    }
                }
            },
        }
        i += 1;
    }
    if positional_args.len() > 2 {
        return Err(ArgsError::TooMany);
    }
    let ghost scanned = found_of(directory, language, positional_args@);
    let mut k: usize = 0;
    while k < positional_args.len()
        invariant
            k <= positional_args@.len(),
            scan(
                raw_args@,
                1,
                Found { directory: None, language: None, positional: Seq::empty() },
            ) == Ok::<Found, ArgsError>(scanned),
            scanned.positional.len() <= 2,
            place(found_of(directory, language, positional_args@), k as int) == place(scanned, 0),
            directory is Some ==> directory->0 < raw_args@.len(),
            language is Some ==> language->0 < raw_args@.len(),
            forall|k: int|
                0 <= k < positional_args@.len() ==> #[trigger] positional_args@[k]
                    < raw_args@.len(),
        decreases positional_args.len() - k,
    {
        let arg = positional_args[k];
        if directory.is_none() {
            directory = Some(arg);
        } else if language.is_none() {
            language = Some(arg);
        } else {
            return Err(ArgsError::TooManyPositional);
        }
        k += 1;
    }
    let directory = match directory {
        Some(directory) => directory,
        None => {
            return Err(ArgsError::MissingDirectory);
        },
    };
    let language = match language {
        Some(l) => {
            match parse_language(raw_args[l].lossy.as_str()) {
                Some(language) => language,
                None => {
                    return Err(ArgsError::InvalidLanguage(l));
                },
            }
        },
        None => Language::Rust,
    };
    Ok(
        CommandLineArgs {
            directory: raw_args[directory].lossy.clone(),
            directory_arg: directory,
            language,
        },
    )
}

/// The positions that the executable scan holds, as a `Found`.
spec fn found_of(
    directory: Option<usize>,
    language: Option<usize>,
    positional: Seq<usize>,
) -> Found {
    Found {
        directory: match directory {
            Some(d) => Some(d as int),
            None => None,
        },
        language: match language {
            Some(l) => Some(l as int),
            None => None,
        },
        positional: positional.map_values(|p: usize| p as int),
    }
}

/// The three files of a sample test case.
#[derive(Copy, Clone, Debug, PartialEq, Eq, Structural)]
pub enum SampleKind {
    Input,
    Output,
    Answer,
}

impl SampleKind {
    /// The extension of the file's name: `in`, `out` or `ans`.
    pub fn extension(&self) -> (r: &'static str)
        ensures
            r@ == match *self {
                SampleKind::Input => "in"@,
                SampleKind::Output => "out"@,
                SampleKind::Answer => "ans"@,
            },
    {
        match self {
            SampleKind::Input => "in",
            SampleKind::Output => "out",
            SampleKind::Answer => "ans",
        }
    }
}

/// A file to create for a sample test case.
pub struct SampleFile {
    pub case_id: usize,
    pub kind: SampleKind,
    pub content: String,
}

/// What one line of the pasted samples brings about: the files to create,
/// in order, and whether the samples are at an end.
pub struct Step {
    pub files: Vec<SampleFile>,
    pub done: bool,
}

/// The reader of sample test cases pasted from a problem statement: the
/// text gathered since the last separator, the number of the test case, and
/// whether the text is an input or an expected output.
pub struct SampleReader {
    pub content: String,
    pub case_id: usize,
    pub is_input: bool,
}

/// `line` ends a block of text: `=`, `OutputCopy` or `Note`.
pub open spec fn is_separator(line: Seq<char>) -> bool {
    line == "="@ || line == "OutputCopy"@ || line == "Note"@
}

/// Whether two texts are equal.
fn same_text(a: &str, b: &str) -> (r: bool)
    ensures
        r == (a@ == b@),
{
    String::from_str(a) == String::from_str(b)
}

impl SampleReader {
    /// A reader at the start of the first input.
    pub fn new() -> (r: SampleReader)
        ensures
            r.content@ == Seq::<char>::empty(),
            r.case_id == 0,
            r.is_input,
    {
        SampleReader { content: String::new(), case_id: 0, is_input: true }
    }

    /// The text gathered, the number of the test case and whether an input
    /// is being read, after `line` has been taken.
    pub open spec fn after(&self, line: Seq<char>) -> (Seq<char>, int, bool) {
        if line == "InputCopy"@ {
            (self.content@, self.case_id as int, self.is_input)
        } else if is_separator(line) {
            (
                Seq::empty(),
                if self.is_input {
                    self.case_id as int
                } else {
                    self.case_id + 1
                },
                !self.is_input,
            )
        } else {
            (self.content@ + line + "\n"@, self.case_id as int, self.is_input)
        }
    }

    /// The files that taking `line` gives rise to, each as the number of
    /// its test case, its kind and its content.
    pub open spec fn emits(&self, line: Seq<char>) -> Seq<(int, SampleKind, Seq<char>)> {
        if line == "InputCopy"@ || !is_separator(line) {
            Seq::empty()
        } else if self.is_input {
            seq![(self.case_id as int, SampleKind::Input, self.content@)]
        } else {
            seq![
                (self.case_id as int, SampleKind::Output, Seq::empty()),
                (self.case_id as int, SampleKind::Answer, self.content@),
            ]
        }
    }

    /// Takes the next line. `InputCopy` is passed over. A separator ends
    /// the block: an input goes to the `in` file of the test case; an
    /// expected output goes to its `ans` file, after an empty `out` file,
    /// and the next test case begins. `Note` also ends the samples. Any
    /// other line is added to the block, with a line feed.
    pub fn feed(&mut self, line: &str) -> (step: Step)
        requires
            old(self).case_id < usize::MAX,
        ensures
            step.done == (line@ == "Note"@),
            (final(self).content@, final(self).case_id as int, final(self).is_input) == old(
                self,
            ).after(line@),
            step.files@.len() == old(self).emits(line@).len(),
            forall|k: int|
                0 <= k < step.files@.len() ==> (
                    (#[trigger] step.files@[k]).case_id as int,
                    step.files@[k].kind,
                    step.files@[k].content@,
                ) == old(self).emits(line@)[k],
    {
        proof {
            reveal_strlit("InputCopy");
            reveal_strlit("OutputCopy");
            reveal_strlit("Note");
            reveal_strlit("=");
            assert("InputCopy"@.len() == 9);
        }
        let mut files: Vec<SampleFile> = Vec::new();
        if same_text(line, "InputCopy") {
            return Step { files, done: false };
        }
        let note = same_text(line, "Note");
        if same_text(line, "=") || same_text(line, "OutputCopy") || note {
            if self.is_input {
                files.push(
                    SampleFile {
                        case_id: self.case_id,
                        kind: SampleKind::Input,
                        content: self.content.clone(),
                    },
                );
            } else {
                files.push(
                    SampleFile {
                        case_id: self.case_id,
                        kind: SampleKind::Output,
                        content: String::new(),
                    },
                );
                self.case_id += 1;
                files.push(
                    SampleFile {
                        case_id: self.case_id - 1,
                        kind: SampleKind::Answer,
                        content: self.content.clone(),
                    },
                );
            }
            self.content = String::new();
            self.is_input = !self.is_input;
            return Step { files, done: note };
        }
        self.content.append(line);
        self.content.append("\n");
        Step { files, done: false }
    }
}

} // verus!
