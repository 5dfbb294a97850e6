//! Commands to run, and what came of running them.

use vstd::prelude::*;
use crate::text::{chars_of, string_of, trim, trimmed};

verus! {

/// A command to run: the program and its arguments.
#[derive(Debug, PartialEq, Eq)]
pub struct Invocation {
    /// The program's name.
    pub program: String,
    /// The arguments, in order.
    pub args: Vec<String>,
}

impl Invocation {
    /// The command line: the program's name, then the arguments.
    pub open spec fn words(&self) -> Seq<Seq<char>> {
        seq![self.program@] + self.args@.map_values(|a: String| a@)
    }

    /// A command without arguments.
    pub fn new(program: &str) -> (r: Invocation)
        ensures
            r.words() == seq![program@],
    {
        let r = Invocation { program: program.to_owned(), args: Vec::new() };
        assert(r.words() =~= seq![program@]);
        r
    }

    /// The command with one more argument.
    pub fn arg(self, a: &str) -> (r: Invocation)
        ensures
            r.words() == self.words().push(a@),
    {
        let mut args = self.args;
        args.push(a.to_owned());
        let r = Invocation { program: self.program, args };
        assert(r.words() =~= self.words().push(a@));
        r
    }
}

/// What came of running a command.
#[derive(Debug, PartialEq, Eq)]
pub enum CommandOutcome {
    /// It could not be started; the system's words for why.
    NotStarted { error: String },
    /// It ran and exited.
    Exited { success: bool, stdout: String, stderr: String },
}

/// The text that `String::from_utf8_lossy` reads out of bytes.
pub uninterp spec fn utf8_lossy(bytes: Seq<u8>) -> Seq<char>;

/// `String::from_utf8_lossy`: a function of the bytes alone. Bytes that are
/// valid UTF-8 give the text that they encode. How many replacement characters
/// stand for bytes that are not is left unsaid.
#[verifier::external_body]
fn from_utf8_lossy(bytes: &[u8]) -> (r: String)
    ensures
        r@ == utf8_lossy(bytes@),
        vstd::utf8::valid_utf8(bytes@) ==> r@ == vstd::utf8::decode_utf8(bytes@),
{
    String::from_utf8_lossy(bytes).into_owned()
}

impl CommandOutcome {
    /// The outcome of a command that ran, from what it wrote.
    pub fn exited(success: bool, stdout: &[u8], stderr: &[u8]) -> (r: CommandOutcome)
        ensures
            r matches CommandOutcome::Exited { success: ok, stdout: out, stderr: err } && ok
                == success && out@ == utf8_lossy(stdout@) && err@ == utf8_lossy(stderr@),
            vstd::utf8::valid_utf8(stdout@) ==> r->stdout@ == vstd::utf8::decode_utf8(stdout@),
            vstd::utf8::valid_utf8(stderr@) ==> r->stderr@ == vstd::utf8::decode_utf8(stderr@),
    {
        CommandOutcome::Exited {
            success,
            stdout: from_utf8_lossy(stdout),
            stderr: from_utf8_lossy(stderr),
        }
    }

    /// What the command printed, if it succeeded.
    pub open spec fn printed(&self) -> Option<Seq<char>> {
        match self {
            CommandOutcome::Exited { success, stdout, .. } => if *success {
                Some(stdout@)
            } else {
                None
            },
            CommandOutcome::NotStarted { .. } => None,
        }
    }

    /// The complaint about a run of `tool` that did not succeed.
    pub open spec fn complaint(&self, tool: Seq<char>) -> Seq<char> {
        match self {
            CommandOutcome::NotStarted { error } => "couldn't run "@ + tool + " ("@ + error@ + ")"@,
            CommandOutcome::Exited { stderr, .. } => tool + " exited non-zero: "@
                + trim(stderr@),
        }
    }

    /// What the command printed, or the complaint that it did not succeed.
    pub fn output_of(&self, tool: &str) -> (r: Result<&str, String>)
        ensures
            match r {
                Ok(out) => self.printed() == Some(out@),
                Err(e) => self.printed() is None && e@ == self.complaint(tool@),
            },
    {
        match self {
            CommandOutcome::NotStarted { error } => {
                let mut e = "couldn't run ".to_owned();
                e.append(tool);
                e.append(" (");
                e.append(error.as_str());
                e.append(")");
                Err(e)
            },
            CommandOutcome::Exited { success, stdout, stderr } => {
                if *success {
                    Ok(stdout.as_str())
                } else {
                    let why = chars_of(stderr.as_str());
                    let why = string_of(trimmed(why.as_slice()));
                    let mut e = tool.to_owned();
                    e.append(" exited non-zero: ");
                    e.append(why.as_str());
                    Err(e)
                }
            },
        }
    }

    /// What the command printed, if it succeeded.
    pub fn success_text(&self) -> (r: Option<&str>)
        ensures
            match r {
                Some(out) => self.printed() == Some(out@),
                None => self.printed() is None,
            },
    {
        match self {
            CommandOutcome::NotStarted { .. } => None,
            CommandOutcome::Exited { success, stdout, .. } => {
                if *success {
                    Some(stdout.as_str())
                } else {
                    None
                }
            },
        }
    }
}

/// A command line is the program's name and then the arguments, in order.
pub proof fn law_words(command: Invocation)
    ensures
        command.words().len() == 1 + command.args@.len(),
        command.words()[0] == command.program@,
        forall|i: int| 0 <= i < command.args@.len() ==> #[trigger] command.words()[i + 1]
            == command.args@[i]@,
{
}

/// A command has printed what it wrote to standard output if it succeeded, and else
/// nothing that counts. The complaint about a command names the tool, and what the
/// system or the command itself had to say.
pub proof fn law_outcome(error: String, stdout: String, stderr: String, tool: Seq<char>)
    ensures
        (CommandOutcome::Exited { success: true, stdout, stderr }).printed() == Some(stdout@),
        (CommandOutcome::Exited { success: false, stdout, stderr }).printed() is None,
        (CommandOutcome::NotStarted { error }).printed() is None,
        (CommandOutcome::NotStarted { error }).complaint(tool) == "couldn't run "@ + tool + " ("@
            + error@ + ")"@,
        (CommandOutcome::Exited { success: false, stdout, stderr }).complaint(tool) == tool
            + " exited non-zero: "@ + trim(stderr@),
{
}

} // verus!
