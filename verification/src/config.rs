//! Run configuration: scope of candidates, transformation rule, and the
//! selected subcommand.

use vstd::prelude::*;
use vstd::string::StrSliceExecFns;
use vstd::string::StringExecFns;

verus! {

/// How candidate paths are chosen: an explicit list, a recursive walk,
/// or replay from a persisted operation log.
#[derive(Debug)]
pub enum RunMode {
    Simple(Vec<String>),
    Recursive { paths: Vec<String>, max_depth: Option<usize>, hidden: bool },
    FromFile { path: String, undo: bool },
}

/// The text transformation applied to each candidate's base name.
#[derive(Debug)]
pub enum ReplaceMode {
    RegExp { expression: String, replacement: String, limit: usize },
    ToASCII,
}

/// The subcommand selected on the command line.
#[derive(Debug, PartialEq, Eq, Structural)]
pub enum AppCommand {
    Root,
    FromFile,
    ToASCII,
}

impl AppCommand {
    /// The command a subcommand name denotes; an unknown name is refused
    /// with a message naming it.
    pub fn from_str(name: &str) -> (r: Result<AppCommand, String>)
        ensures
            match r {
                Ok(c) => (name@ == ""@ && c == AppCommand::Root) || (name@ == "from-file"@ && c
                    == AppCommand::FromFile) || (name@ == "to-ascii"@ && c == AppCommand::ToASCII),
                Err(e) => name@ != ""@ && name@ != "from-file"@ && name@ != "to-ascii"@ && e@
                    == "Non-registred subcommand '"@ + name@ + "'"@,
            },
    {
        let owned: String = name.to_owned();
        if name.unicode_len() == 0 {
            proof {
                reveal_strlit("");
                assert(name@ =~= ""@);
            }
            Ok(AppCommand::Root)
        } else if owned == String::from_str("from-file") {
            Ok(AppCommand::FromFile)
        } else if owned == String::from_str("to-ascii") {
            Ok(AppCommand::ToASCII)
        } else {
            proof {
                reveal_strlit("");
            }
            let msg = String::from_str("Non-registred subcommand '").concat(name).concat("'");
            Err(msg)
        }
    }
}

/// The full configuration of one invocation, without any presentation
/// concerns.
pub struct Config {
    pub force: bool,
    pub backup: bool,
    pub dirs: bool,
    pub dump: bool,
    pub run_mode: RunMode,
    pub replace_mode: ReplaceMode,
}

} // verus!
