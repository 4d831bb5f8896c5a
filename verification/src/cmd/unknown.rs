//! A command that the server does not know.

use vstd::prelude::*;
use crate::connection::Connection;
use crate::frame::{encode, Frame, FrameView};

verus! {

/// A command by a name that the server does not know.
#[derive(Debug)]
pub struct Unknown {
    command_name: String,
}

impl View for Unknown {
    type V = Seq<char>;

    /// The name of the command.
    closed spec fn view(&self) -> Seq<char> {
        self.command_name@
    }
}

impl Unknown {
    /// The answer to a command by the unknown name `name`.
    pub open spec fn response(name: Seq<char>) -> FrameView {
        FrameView::Error("ERR unknown command '"@ + name + "'"@)
    }

    /// The unknown command by the name `command_name`.
    pub fn new(command_name: &str) -> (cmd: Unknown)
        ensures
            cmd@ == command_name@,
    {
        Unknown { command_name: command_name.to_owned() }
    }

    /// The name of the command.
    pub fn get_name(&self) -> (name: &str)
        ensures
            name@ == self@,
    {
        self.command_name.as_str()
    }

    /// Writes to `dst` that the command is not known.
    pub fn apply(self, dst: &mut Connection)
        ensures
            final(dst).buffered() == old(dst).buffered(),
            final(dst).pending() == old(dst).pending() + encode(Unknown::response(self@)),
    {
        let mut text = String::from_str("ERR unknown command '");
        text.append(self.command_name.as_str());
        text.append("'");
        let response = Frame::Error(text);
        dst.write_frame(&response);
    }
}

} // verus!
