//! How the program ends: what it writes, and with which status it exits.

use vstd::prelude::*;

verus! {

/// An end of the program.
#[derive(Debug, PartialEq, Eq)]
pub struct Ending {
    /// What goes to standard output.
    pub stdout: String,
    /// What goes to standard error.
    pub stderr: String,
    /// The exit status.
    pub status: i32,
}

impl Ending {
    /// Whether the program writes this to these streams and exits with this status.
    pub open spec fn says(&self, stdout: Seq<char>, stderr: Seq<char>, status: i32) -> bool {
        self.stdout@ == stdout && self.stderr@ == stderr && self.status == status
    }

    /// The program did what it was asked to: a text on standard output.
    pub fn answered(text: String) -> (r: Ending)
        ensures
            r.says(text@, Seq::empty(), 0),
    {
        Ending { stdout: text, stderr: String::new(), status: 0 }
    }

    /// The program could not do what it was asked to: a text on standard error.
    pub fn failed(text: String) -> (r: Ending)
        ensures
            r.says(Seq::empty(), text@, 1),
    {
        Ending { stdout: String::new(), stderr: text, status: 1 }
    }

    /// The program was not asked for anything that it knows: a text on standard
    /// output.
    pub fn refused(text: String) -> (r: Ending)
        ensures
            r.says(text@, Seq::empty(), 1),
    {
        Ending { stdout: text, stderr: String::new(), status: 1 }
    }
}

/// Two ends that say the same are the same to whoever watches the program.
pub proof fn law_says(end: Ending, stdout: Seq<char>, stderr: Seq<char>, status: i32)
    requires
        end.says(stdout, stderr, status),
    ensures
        end.stdout@ == stdout,
        end.stderr@ == stderr,
        end.status == status,
{
}

} // verus!
