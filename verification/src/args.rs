//! The command line: which words select the input directory, the names to
//! skip, the output file, and the hiding of files.

use crate::filter::Filters;
use vstd::prelude::*;
use vstd::string::*;

verus! {

/// What a command line asks for.
pub struct AppConfig {
    /// The directory to draw.
    pub input_dir: String,
    /// Names of directories to leave out.
    pub skip_dirs: Vec<String>,
    /// Names of files to leave out.
    pub skip_files: Vec<String>,
    /// The file to write the diagram to.
    pub output_file: String,
    /// Whether files are shown.
    pub show_files: bool,
}

/// What an [`AppConfig`] holds.
pub struct ConfigView {
    pub input_dir: Seq<char>,
    pub skip_dirs: Seq<Seq<char>>,
    pub skip_files: Seq<Seq<char>>,
    pub output_file: Seq<char>,
    pub show_files: bool,
}

/// The words of a list, each as its text.
pub open spec fn texts(words: Seq<String>) -> Seq<Seq<char>> {
    words.map_values(|w: String| w@)
}

impl View for AppConfig {
    type V = ConfigView;

    open spec fn view(&self) -> ConfigView {
        ConfigView {
            input_dir: self.input_dir@,
            skip_dirs: texts(self.skip_dirs@),
            skip_files: texts(self.skip_files@),
            output_file: self.output_file@,
            show_files: self.show_files,
        }
    }
}

/// Why a command line was refused.
pub enum ArgError {
    /// `-i` was the last word.
    MissingInput,
    /// `-o` was the last word.
    MissingOutput,
    /// A word that is no option stood where one was expected.
    Unknown(String),
}

/// What an [`ArgError`] holds.
pub enum ArgErrorView {
    MissingInput,
    MissingOutput,
    Unknown(Seq<char>),
}

impl View for ArgError {
    type V = ArgErrorView;

    open spec fn view(&self) -> ArgErrorView {
        match self {
            ArgError::MissingInput => ArgErrorView::MissingInput,
            ArgError::MissingOutput => ArgErrorView::MissingOutput,
            ArgError::Unknown(word) => ArgErrorView::Unknown(word@),
        }
    }
}

/// What is said of a refused command line.
pub open spec fn error_text(e: ArgErrorView) -> Seq<char> {
    match e {
        ArgErrorView::MissingInput => "Missing argument for -i flag"@,
        ArgErrorView::MissingOutput => "Missing argument for -o flag"@,
        ArgErrorView::Unknown(word) => "Unknown argument: "@ + word,
    }
}

impl ArgError {
    /// What to say of the refusal.
    pub fn message(&self) -> (text: String)
        ensures
            text@ == error_text(self@),
    {
        match self {
            ArgError::MissingInput => String::from_str("Missing argument for -i flag"),
            ArgError::MissingOutput => String::from_str("Missing argument for -o flag"),
            ArgError::Unknown(word) => String::from_str("Unknown argument: ").concat(word.as_str()),
        }
    }
}

/// What holds where no option is given: the current directory, nothing
/// skipped, `output.txt`, files shown.
pub open spec fn default_config() -> ConfigView {
    ConfigView {
        input_dir: "."@,
        skip_dirs: Seq::empty(),
        skip_files: Seq::empty(),
        output_file: "output.txt"@,
        show_files: true,
    }
}

/// Whether a word begins with a hyphen, and so ends a list of names.
pub open spec fn is_option(word: Seq<char>) -> bool {
    word.len() > 0 && word[0] == '-'
}

/// The position of the first word at or after `i` that begins with a
/// hyphen, or the number of words if there is none.
pub open spec fn list_end(words: Seq<Seq<char>>, i: int) -> int
    decreases words.len() - i,
{
    if 0 <= i < words.len() && !is_option(words[i]) {
        list_end(words, i + 1)
    } else {
        i
    }
}

/// What the words from position `i` on make of `config`, read from left to
/// right: `-i` and `-o` take the next word, whatever it is; `-s` and `-f`
/// take every word up to the next that begins with a hyphen, and add to
/// what earlier ones took; `--no-files` hides the files.
pub open spec fn parsed_from(words: Seq<Seq<char>>, i: int, config: ConfigView) -> Result<
    ConfigView,
    ArgErrorView,
>
    decreases words.len() - i,
    via parsed_from_terminates
{
    if i < 0 || i >= words.len() {
        Ok(config)
    } else if words[i] == "-i"@ {
        if i + 1 < words.len() {
            parsed_from(words, i + 2, ConfigView { input_dir: words[i + 1], ..config })
        } else {
            Err(ArgErrorView::MissingInput)
        }
    } else if words[i] == "-s"@ {
        let end = list_end(words, i + 1);
        parsed_from(
            words,
            end,
            ConfigView { skip_dirs: config.skip_dirs + words.subrange(i + 1, end), ..config },
        )
    } else if words[i] == "-f"@ {
        let end = list_end(words, i + 1);
        parsed_from(
            words,
            end,
            ConfigView { skip_files: config.skip_files + words.subrange(i + 1, end), ..config },
        )
    } else if words[i] == "-o"@ {
        if i + 1 < words.len() {
            parsed_from(words, i + 2, ConfigView { output_file: words[i + 1], ..config })
        } else {
            Err(ArgErrorView::MissingOutput)
        }
    } else if words[i] == "--no-files"@ {
        parsed_from(words, i + 1, ConfigView { show_files: false, ..config })
    } else {
        Err(ArgErrorView::Unknown(words[i]))
    }
}

#[via_fn]
proof fn parsed_from_terminates(words: Seq<Seq<char>>, i: int, config: ConfigView) {
    if 0 <= i < words.len() {
        lemma_list_end(words, i + 1);
    }
}

/// What a command line asks for. The first word is the program's name and
/// is not read.
pub open spec fn parsed(words: Seq<Seq<char>>) -> Result<ConfigView, ArgErrorView> {
    parsed_from(words, 1, default_config())
}

proof fn lemma_list_end(words: Seq<Seq<char>>, i: int)
    requires
        0 <= i <= words.len(),
    ensures
        i <= list_end(words, i) <= words.len(),
    decreases words.len() - i,
{
    if i < words.len() && !is_option(words[i]) {
        lemma_list_end(words, i + 1);
    }
}

/// Whether a word begins with a hyphen.
pub fn starts_option(word: &str) -> (r: bool)
    ensures
        r == is_option(word@),
{
    !word.is_empty() && word.get_char(0) == '-'
}

/// Moves the words of a list of names, from position `start` up to the next
/// word that begins with a hyphen, to the end of `names`, and returns the
/// position after them.
fn take_names(args: &Vec<String>, start: usize, names: &mut Vec<String>) -> (end: usize)
    requires
        start <= args@.len(),
    ensures
        end == list_end(texts(args@), start as int),
        start <= end <= args@.len(),
        texts(final(names)@) == texts(old(names)@) + texts(args@).subrange(start as int, end as int),
{
    let ghost words = texts(args@);
    let ghost had = texts(names@);
    let mut i = start;
    proof {
        assert(had + words.subrange(start as int, start as int) =~= had);
    }
    while i < args.len() && !starts_option(args[i].as_str())
        invariant
            start <= i <= args@.len(),
            words == texts(args@),
            list_end(words, start as int) == list_end(words, i as int),
            texts(names@) == had + words.subrange(start as int, i as int),
        decreases args@.len() - i,
    {
        let ghost so_far = texts(names@);
        names.push(args[i].clone());
        proof {
            assert(texts(names@) =~= so_far.push(words[i as int]));
            assert(had + words.subrange(start as int, i + 1) =~= (had + words.subrange(
                start as int,
                i as int,
            )).push(words[i as int]));
        }
        i = i + 1;
    }
    i
}

/// Reads a command line. The first word is the program's name and is not
/// read. A word that is no option, where an option is expected, and `-i` or
/// `-o` as the last word are refused.
pub fn parse_args(args: &Vec<String>) -> (r: Result<AppConfig, ArgError>)
    ensures
        match r {
            Ok(config) => parsed(texts(args@)) == Ok::<ConfigView, ArgErrorView>(config@),
            Err(e) => parsed(texts(args@)) == Err::<ConfigView, ArgErrorView>(e@),
        },
{
    let ghost words = texts(args@);
    let flag_input = String::from_str("-i");
    let flag_dirs = String::from_str("-s");
    let flag_files = String::from_str("-f");
    let flag_output = String::from_str("-o");
    let flag_hide = String::from_str("--no-files");
    let mut config = AppConfig {
        input_dir: String::from_str("."),
        skip_dirs: Vec::new(),
        skip_files: Vec::new(),
        output_file: String::from_str("output.txt"),
        show_files: true,
    };
    proof {
        assert(config@.skip_dirs =~= Seq::<Seq<char>>::empty());
        assert(config@.skip_files =~= Seq::<Seq<char>>::empty());
        assert(config@ == default_config());
    }
    let mut i: usize = 1;
    while i < args.len()
        invariant
            1 <= i,
            words == texts(args@),
            flag_input@ == "-i"@,
            flag_dirs@ == "-s"@,
            flag_files@ == "-f"@,
            flag_output@ == "-o"@,
            flag_hide@ == "--no-files"@,
            parsed(words) == parsed_from(words, i as int, config@),
        decreases args@.len() - i,
    {
        let word = &args[i];
        assert(word@ == words[i as int]);
        if *word == flag_input {
            if i + 1 < args.len() {
                config.input_dir = args[i + 1].clone();
                i = i + 2;
            } else {
                return Err(ArgError::MissingInput);
            }
        } else if *word == flag_dirs {
            proof {
                lemma_list_end(words, i + 1);
            }
            i = take_names(args, i + 1, &mut config.skip_dirs);
        } else if *word == flag_files {
            proof {
                lemma_list_end(words, i + 1);
            }
            i = take_names(args, i + 1, &mut config.skip_files);
        } else if *word == flag_output {
            if i + 1 < args.len() {
                config.output_file = args[i + 1].clone();
                i = i + 2;
            } else {
                return Err(ArgError::MissingOutput);
            }
        } else if *word == flag_hide {
            config.show_files = false;
            i = i + 1;
        } else {
            return Err(ArgError::Unknown(word.clone()));
        }
    }
    Ok(config)
}

impl AppConfig {
    /// The filters that the command line asks for.
    pub fn filters(&self) -> (f: Filters)
        ensures
            f.skip_dirs@ == self.skip_dirs@,
            f.skip_files@ == self.skip_files@,
            f.show_files == self.show_files,
    {
        Filters {
            skip_dirs: self.skip_dirs.clone(),
            skip_files: self.skip_files.clone(),
            show_files: self.show_files,
        }
    }
}

} // verus!
