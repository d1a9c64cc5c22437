//! How messages are written to the error stream: with a coloured tag on a
//! terminal, plain otherwise.

use vstd::prelude::*;

verus! {

/// Where messages go, and whether that is a terminal.
#[derive(Debug, Clone, Copy, PartialEq, Eq, Structural)]
pub struct Output {
    stderr_is_tty: bool,
}

/// The line for an error: `error: <message>`, the tag in red on a terminal.
pub open spec fn error_text(tty: bool, message: Seq<char>) -> Seq<char> {
    if tty {
        "\x1b[31merror:\x1b[0m "@ + message
    } else {
        "error: "@ + message
    }
}

/// The line for a warning: `warning: <message>`, the tag in yellow on a terminal.
pub open spec fn warning_text(tty: bool, message: Seq<char>) -> Seq<char> {
    if tty {
        "\x1b[33mwarning:\x1b[0m "@ + message
    } else {
        "warning: "@ + message
    }
}

impl Output {
    /// Whether the error stream is a terminal.
    pub closed spec fn is_tty(&self) -> bool {
        self.stderr_is_tty
    }

    /// Messages for an error stream that is a terminal or not.
    pub fn with_terminal(stderr_is_tty: bool) -> (r: Output)
        ensures
            r.is_tty() == stderr_is_tty,
    {
        Output { stderr_is_tty }
    }

    /// The line that reports an error.
    pub fn error_line(&self, message: &str) -> (r: String)
        ensures
            r@ == error_text(self.is_tty(), message@),
    {
        let mut line = if self.stderr_is_tty {
            String::from_str("\x1b[31merror:\x1b[0m ")
        } else {
            String::from_str("error: ")
        };
        line.append(message);
        line
    }

    /// The line that reports a warning.
    pub fn warning_line(&self, message: &str) -> (r: String)
        ensures
            r@ == warning_text(self.is_tty(), message@),
    {
        let mut line = if self.stderr_is_tty {
            String::from_str("\x1b[33mwarning:\x1b[0m ")
        } else {
            String::from_str("warning: ")
        };
        line.append(message);
        line
    }
}

} // verus!
