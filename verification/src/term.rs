//! The command line of the text terminal: the characters typed so far, and
//! which program a finished line names.

use vstd::prelude::*;
use crate::text::{split_whitespace, spec_words, str_eq};

verus! {

/// Exit status of a command line that names no known program.
pub const COMMAND_NOT_FOUND: i32 = 127;

/// The command line being typed.
pub struct CommandLine {
    pub chars: Vec<char>,
}

impl CommandLine {
    /// An empty command line.
    pub fn new() -> (r: Self)
        ensures
            r.chars@ == Seq::<char>::empty(),
    {
        CommandLine { chars: Vec::new() }
    }
}

/// Add a character at the end of the command line.
pub fn append_cmd_char(line: &mut CommandLine, c: char)
    ensures
        final(line).chars@ == old(line).chars@.push(c),
{
    line.chars.push(c);
}

/// Remove the last character of the command line; an empty line stays
/// empty.
pub fn cmd_backspace(line: &mut CommandLine)
    ensures
        final(line).chars@ == if old(line).chars@.len() == 0 {
            old(line).chars@
        } else {
            old(line).chars@.drop_last()
        },
{
    if line.chars.len() > 0 {
        line.chars.pop();
    }
}

/// The program a command line names.
pub enum CommandLookup {
    /// The line holds no word: nothing runs and the status is 0.
    Empty,
    /// The first word names program `app`; `args` are the other words.
    Run { app: usize, args: Vec<String> },
    /// The first word, `name`, names no program.
    NotFound { name: String },
}

/// Find the program named by the first word of `line` among `apps`, the
/// first that matches; the other words are its arguments.
pub fn lookup_command(line: &str, apps: &[&str]) -> (r: CommandLookup)
    ensures
        ({
            let words = spec_words(line@);
            match r {
                CommandLookup::Empty => words.len() == 0,
                CommandLookup::Run { app, args } => {
                    &&& words.len() > 0
                    &&& app < apps@.len()
                    &&& apps@[app as int]@ == words[0]
                    &&& forall|j: int| 0 <= j < app ==> #[trigger] apps@[j]@ != words[0]
                    &&& args@.map_values(|w: String| w@) == words.drop_first()
                },
                CommandLookup::NotFound { name } => {
                    &&& words.len() > 0
                    &&& name@ == words[0]
                    &&& forall|j: int| 0 <= j < apps@.len() ==> #[trigger] apps@[j]@ != words[0]
                },
            }
        }),
{
    let mut words = split_whitespace(line);
    if words.len() == 0 {
        return CommandLookup::Empty;
    }
    let mut i: usize = 0;
    while i < apps.len()
        invariant
            i <= apps@.len(),
            words@.len() > 0,
            words@.map_values(|w: String| w@) == spec_words(line@),
            forall|j: int| 0 <= j < i ==> #[trigger] apps@[j]@ != words@[0]@,
        decreases apps.len() - i,
    {
        if str_eq(apps[i], words[0].as_str()) {
            words.remove(0);
            proof {
                assert(words@.map_values(|w: String| w@) =~= spec_words(line@).drop_first());
            }
            return CommandLookup::Run { app: i, args: words };
        }
        i = i + 1;
    }
    let name = words.remove(0);
    CommandLookup::NotFound { name }
}

} // verus!
