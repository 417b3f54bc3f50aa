//! The program's command line: options and up to three positional
//! arguments (program name, input file, output file).
use vstd::prelude::*;
use vstd::string::{StringExecFns, StrSliceExecFns};

verus! {

/// What the next argument means.
#[derive(Copy, Clone, PartialEq, Eq, Debug, Structural)]
pub enum ArgsState {
    /// options and positional arguments
    Open,
    /// after `--`: positional arguments only
    ForcePositional,
    /// after `--assume-filename`: its value
    AssumeFilename,
}

/// A command line that cannot be used.
#[derive(Debug)]
pub enum ArgsError {
    /// `--assume-filename` came twice.
    AssumeFilenameRepeated,
    /// An option that the program does not know.
    UnknownFlag,
    /// More than an input and an output file.
    TooManyPositional,
}

/// The program's arguments, as far as they have been read.
#[derive(Debug)]
pub struct Args {
    pub state: ArgsState,
    pub help: bool,
    pub version: bool,
    pub process_apng: bool,
    pub ignore_unsafe_to_copy: bool,
    pub assume_filename: Option<String>,
    pub program_name: Option<String>,
    pub input_file: Option<String>,
    pub output_file: Option<String>,
}

pub open spec fn opt_view(o: Option<String>) -> Option<Seq<char>> {
    match o {
        Some(s) => Some(s@),
        None => None,
    }
}

/// The arguments with their strings as character sequences.
pub struct ArgsView {
    pub state: ArgsState,
    pub help: bool,
    pub version: bool,
    pub process_apng: bool,
    pub ignore_unsafe_to_copy: bool,
    pub assume_filename: Option<Seq<char>>,
    pub program_name: Option<Seq<char>>,
    pub input_file: Option<Seq<char>>,
    pub output_file: Option<Seq<char>>,
}

impl View for Args {
    type V = ArgsView;

    open spec fn view(&self) -> ArgsView {
        ArgsView {
            state: self.state,
            help: self.help,
            version: self.version,
            process_apng: self.process_apng,
            ignore_unsafe_to_copy: self.ignore_unsafe_to_copy,
            assume_filename: opt_view(self.assume_filename),
            program_name: opt_view(self.program_name),
            input_file: opt_view(self.input_file),
            output_file: opt_view(self.output_file),
        }
    }
}

/// The options spelt with a leading slash; other arguments that start with
/// a slash are paths.
pub open spec fn is_slash_option(s: Seq<char>) -> bool {
    s == "/apng"@ || s == "/assume-filename"@ || s == "/copy-unsafe"@ || s == "/?"@ || s == "/help"@
}

/// An argument that is read as an option (unless after `--`).
pub open spec fn is_option(s: Seq<char>) -> bool {
    (s.len() > 0 && s[0] == '-') || is_slash_option(s)
}

/// The arguments after reading one more, `arg`.
pub open spec fn push_spec(a: ArgsView, arg: Seq<char>) -> Result<ArgsView, ArgsError> {
    if a.state == ArgsState::AssumeFilename {
        if a.assume_filename is Some {
            Err(ArgsError::AssumeFilenameRepeated)
        } else {
            Ok(ArgsView { assume_filename: Some(arg), state: ArgsState::Open, ..a })
        }
    } else if a.state != ArgsState::ForcePositional && is_option(arg) {
        if arg == "--"@ {
            Ok(ArgsView { state: ArgsState::ForcePositional, ..a })
        } else if arg == "--apng"@ || arg == "/apng"@ {
            Ok(ArgsView { process_apng: true, ..a })
        } else if arg == "--assume-filename"@ || arg == "/assume-filename"@ {
            Ok(ArgsView { state: ArgsState::AssumeFilename, ..a })
        } else if arg == "--copy-unsafe"@ || arg == "/copy-unsafe"@ {
            Ok(ArgsView { ignore_unsafe_to_copy: true, ..a })
        } else if arg == "-?"@ || arg == "--help"@ || arg == "/?"@ || arg == "/help"@ {
            Ok(ArgsView { help: true, ..a })
        } else if arg == "--version"@ {
            Ok(ArgsView { version: true, ..a })
        } else {
            Err(ArgsError::UnknownFlag)
        }
    } else if a.program_name is None {
        Ok(ArgsView { program_name: Some(arg), ..a })
    } else if a.input_file is None {
        Ok(ArgsView { input_file: Some(arg), ..a })
    } else if a.output_file is None {
        Ok(ArgsView { output_file: Some(arg), ..a })
    } else {
        Err(ArgsError::TooManyPositional)
    }
}

/// Whether `a` spells `lit`.
fn spells(a: &String, lit: &str) -> (r: bool)
    ensures
        r == (a@ == lit@),
{
    *a == String::from_str(lit)
}

impl Args {
    /// No arguments read yet.
    pub fn new() -> (r: Args)
        ensures
            r@ == (ArgsView {
                state: ArgsState::Open,
                help: false,
                version: false,
                process_apng: false,
                ignore_unsafe_to_copy: false,
                assume_filename: None,
                program_name: None,
                input_file: None,
                output_file: None,
            }),
    {
        Args {
            state: ArgsState::Open,
            help: false,
            version: false,
            process_apng: false,
            ignore_unsafe_to_copy: false,
            assume_filename: None,
            program_name: None,
            input_file: None,
            output_file: None,
        }
    }

    /// Reads one more argument.
    pub fn push(self, arg: String) -> (r: Result<Args, ArgsError>)
        ensures
            match push_spec(self@, arg@) {
                Ok(v) => r is Ok && r->Ok_0@ == v,
                Err(e) => r is Err && r->Err_0 == e,
            },
    {
        let mut a = self;
        if a.state == ArgsState::AssumeFilename {
            if a.assume_filename.is_some() {
                return Err(ArgsError::AssumeFilenameRepeated);
            }
            a.assume_filename = Some(arg);
            a.state = ArgsState::Open;
            return Ok(a);
        }
        let s = arg.as_str();
        let dash = s.unicode_len() > 0 && s.get_char(0) == '-';
        let slash = spells(&arg, "/apng") || spells(&arg, "/assume-filename") || spells(&arg, "/copy-unsafe")
            || spells(&arg, "/?") || spells(&arg, "/help");
        if a.state != ArgsState::ForcePositional && (dash || slash) {
            if spells(&arg, "--") {
                a.state = ArgsState::ForcePositional;
            } else if spells(&arg, "--apng") || spells(&arg, "/apng") {
                a.process_apng = true;
            } else if spells(&arg, "--assume-filename") || spells(&arg, "/assume-filename") {
                a.state = ArgsState::AssumeFilename;
            } else if spells(&arg, "--copy-unsafe") || spells(&arg, "/copy-unsafe") {
                a.ignore_unsafe_to_copy = true;
            } else if spells(&arg, "-?") || spells(&arg, "--help") || spells(&arg, "/?") || spells(&arg, "/help") {
                a.help = true;
            } else if spells(&arg, "--version") {
                a.version = true;
            } else {
                return Err(ArgsError::UnknownFlag);
            }
        } else if a.program_name.is_none() {
            a.program_name = Some(arg);
        } else if a.input_file.is_none() {
            a.input_file = Some(arg);
        } else if a.output_file.is_none() {
            a.output_file = Some(arg);
        } else {
            return Err(ArgsError::TooManyPositional);
        }
        Ok(a)
    }
}

} // verus!
