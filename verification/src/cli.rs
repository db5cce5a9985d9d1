use vstd::prelude::*;

verus! {

// The command-line surface as plain data: the shell around the library
// parses the real arguments into these and dispatches on them.

/// The parsed command line: the verbosity count and the command.
pub struct CommandLine {
    pub verbosity: u64,
    pub cmd: Command,
}

/// One command of the tool.
pub enum Command {
    Agenda(Agenda),
    Copy,
    Cursor(Cursor),
    Delete,
    Edit,
    Get(Get),
    Index(Index),
    List(List),
    New(New),
    Select(Select),
    Sequence,
    Show,
    Undo,
    Unroll(Unroll),
}

/// The agenda view's arguments.
pub struct Agenda {
    pub args: Vec<String>,
}

/// Which way the cursor moves.
pub enum Direction {
    Next,
    Prev,
}

/// The cursor command's arguments.
pub struct Cursor {
    pub direction: Option<Direction>,
}

/// What the get command asks about.
pub enum GetArgs {
    Calendars,
}

/// The get command's arguments.
pub struct Get {
    pub query: GetArgs,
}

/// The index command's arguments.
pub struct Index {
    pub reindex: bool,
    pub path: Option<String>,
}

/// The list command's arguments.
pub struct List {
    pub args: Vec<String>,
}

/// The select command's arguments.
pub struct Select {
    pub args: Vec<String>,
}

/// The unroll command's arguments.
pub struct Unroll {
    pub path: String,
}

/// The new command's arguments.
pub struct New {
    pub calendar: String,
    pub from: String,
    pub to: String,
    pub summary: String,
    pub location: String,
}

} // verus!
