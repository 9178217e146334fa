//! A small contextual logger: it prefixes each message with its context and
//! prints the line.

use vstd::prelude::*;
use std::io::Write;

verus! {

/// Relies on std::io::Stdout: writes the line to standard output.
#[verifier::external_body]
pub(crate) fn print_line(s: &str) {
    let mut out = std::io::stdout();
    let _ = writeln!(out, "{}", s);
}

/// A logger carrying the context it prefixes to each message.
pub struct Logger {
    pub context: String,
}

impl Logger {
    /// A logger with the given context.
    pub fn new(context: String) -> (r: Logger)
        ensures
            r.context@ == context@,
    {
        Logger { context }
    }

    /// A logger whose context extends this one's.
    pub fn append_context(&self, context: String) -> (r: Logger)
        ensures
            r.context@ == self.context@ + ": "@ + context@,
    {
        let mut c = self.context.clone();
        proof {
            reveal_strlit(": ");
        }
        c.append(": ");
        c.append(context.as_str());
        Logger { context: c }
    }

    /// The line this logger would print for a message.
    pub fn format_line(&self, message: &str) -> (r: String)
        ensures
            r@ == self.context@ + ": "@ + message@,
    {
        let mut line = self.context.clone();
        proof {
            reveal_strlit(": ");
        }
        line.append(": ");
        line.append(message);
        line
    }

    /// Prints a message under this logger's context.
    pub fn info(&self, message: &str) {
        let line = self.format_line(message);
        print_line(line.as_str());
    }

    /// Prints a message under this logger's context.
    pub fn error(&self, message: &str) {
        let line = self.format_line(message);
        print_line(line.as_str());
    }
}

} // verus!
