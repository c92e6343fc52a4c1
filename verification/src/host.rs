//! The boundary between the engine and the outside world.
//!
//! The evaluator never touches the console, the filesystem, sockets,
//! the shell or the clock itself; it asks a [`Host`] and works with the
//! plain values that come back. Nothing is assumed about those answers:
//! every engine contract holds whatever a host replies. [`ScriptedHost`]
//! is a pure host for exercising the engine: it serves canned answers
//! and records everything the engine sends out.

use std::rc::Rc;

use vstd::prelude::*;

use crate::ast::Statement;
use crate::text::chars_eq;
use crate::value::copy_chars;

verus! {

/// What the engine needs from its surroundings. The parser of the
/// language is external, so loading a module yields parsed statements.
pub trait Host {
    /// Write text to the output stream.
    fn emit_out(&mut self, text: &Vec<char>);

    /// Write one diagnostic line to the error stream.
    fn emit_warning(&mut self, text: &Vec<char>);

    /// Read one raw line from the input stream, terminator included;
    /// end of input yields empty text.
    fn read_line(&mut self) -> Result<Vec<char>, Vec<char>>;

    /// Whether a path names an existing file.
    fn path_exists(&mut self, path: &Vec<char>) -> bool;

    /// The canonical form of a path, when one can be computed.
    fn canonical_path(&mut self, path: &Vec<char>) -> Option<Vec<char>>;

    /// The process working directory, when it can be determined.
    fn working_dir(&mut self) -> Option<Vec<char>>;

    /// Read a source file and parse it into statements.
    fn load_module(&mut self, path: &Vec<char>) -> Result<Rc<Vec<Statement>>, Vec<char>>;

    /// Run a shell command and capture its raw standard output.
    fn run_shell(&mut self, command: &Vec<char>) -> Vec<char>;

    /// Block the current thread for the given number of whole seconds.
    fn sleep_secs(&mut self, seconds: u64);

    /// Open a TCP connection under a name; reports success.
    fn open_socket(&mut self, name: &Vec<char>, peer: &Vec<char>, port: u16) -> bool;

    /// Close and release a named socket; unknown names are ignored.
    fn close_socket(&mut self, name: &Vec<char>);

    /// Best-effort write of text bytes to a named socket.
    fn write_socket(&mut self, name: &Vec<char>, data: &Vec<char>);

    /// One bounded read from a named socket; `None` on failure or an
    /// unknown name.
    fn read_socket(&mut self, name: &Vec<char>) -> Option<Vec<char>>;
}

/// A pure host: canned inputs, recorded outputs, an in-memory module
/// table, and scripted shell and socket replies.
pub struct ScriptedHost {
    /// Lines served to line reads, front first.
    pub inputs: Vec<Vec<char>>,
    /// Everything emitted to the output stream, concatenated in order.
    pub output: Vec<char>,
    /// Diagnostic lines, in order.
    pub warnings: Vec<Vec<char>>,
    /// Module table: path and the statements its source parses to.
    pub modules: Vec<(Vec<char>, Rc<Vec<Statement>>)>,
    /// Replies served to shell invocations, front first.
    pub shell_replies: Vec<Vec<char>>,
    /// Shell commands received, in order.
    pub shell_commands: Vec<Vec<char>>,
    /// Replies served to socket reads, front first.
    pub socket_replies: Vec<Vec<char>>,
    /// Socket names opened, in order.
    pub opened_sockets: Vec<Vec<char>>,
    /// Text written to sockets, in order.
    pub socket_writes: Vec<Vec<char>>,
    /// Seconds slept, in order.
    pub sleeps: Vec<u64>,
}

impl ScriptedHost {
    /// A host with nothing scripted.
    pub fn new() -> ScriptedHost {
        ScriptedHost {
            inputs: Vec::new(),
            output: Vec::new(),
            warnings: Vec::new(),
            modules: Vec::new(),
            shell_replies: Vec::new(),
            shell_commands: Vec::new(),
            socket_replies: Vec::new(),
            opened_sockets: Vec::new(),
            socket_writes: Vec::new(),
            sleeps: Vec::new(),
        }
    }

    /// Provide the parsed statements a path loads to.
    pub fn add_module(&mut self, path: Vec<char>, statements: Vec<Statement>) {
        self.modules.push((path, Rc::new(statements)));
    }

    /// Queue a line for the next line read.
    pub fn push_input(&mut self, line: Vec<char>) {
        self.inputs.push(line);
    }

    /// Queue the output of the next shell invocation.
    pub fn push_shell_reply(&mut self, reply: Vec<char>) {
        self.shell_replies.push(reply);
    }

    /// Queue the data of the next socket read.
    pub fn push_socket_reply(&mut self, reply: Vec<char>) {
        self.socket_replies.push(reply);
    }
}

impl Host for ScriptedHost {
    fn emit_out(&mut self, text: &Vec<char>) {
        crate::text::push_chars(&mut self.output, text);
    }

    fn emit_warning(&mut self, text: &Vec<char>) {
        self.warnings.push(copy_chars(text));
    }

    fn read_line(&mut self) -> Result<Vec<char>, Vec<char>> {
        if self.inputs.len() > 0 {
            Ok(self.inputs.remove(0))
        } else {
            Ok(Vec::new())
        }
    }

    fn path_exists(&mut self, path: &Vec<char>) -> bool {
        let mut i: usize = 0;
        while i < self.modules.len()
            invariant
                i <= self.modules@.len(),
            decreases self.modules@.len() - i,
        {
            if chars_eq(&self.modules[i].0, path) {
                return true;
            }
            i = i + 1;
        }
        false
    }

    fn canonical_path(&mut self, path: &Vec<char>) -> Option<Vec<char>> {
        Some(copy_chars(path))
    }

    fn working_dir(&mut self) -> Option<Vec<char>> {
        None
    }

    fn load_module(&mut self, path: &Vec<char>) -> Result<Rc<Vec<Statement>>, Vec<char>> {
        let mut i: usize = 0;
        while i < self.modules.len()
            invariant
                i <= self.modules@.len(),
            decreases self.modules@.len() - i,
        {
            if chars_eq(&self.modules[i].0, path) {
                let rc = crate::runtime::rc_clone(&self.modules[i].1);
                return Ok(rc);
            }
            i = i + 1;
        }
        Err(crate::text::chars_of("no such file"))
    }

    fn run_shell(&mut self, command: &Vec<char>) -> Vec<char> {
        self.shell_commands.push(copy_chars(command));
        if self.shell_replies.len() > 0 {
            self.shell_replies.remove(0)
        } else {
            Vec::new()
        }
    }

    fn sleep_secs(&mut self, seconds: u64) {
        self.sleeps.push(seconds);
    }

    fn open_socket(&mut self, name: &Vec<char>, peer: &Vec<char>, port: u16) -> bool {
        let _ = peer;
        let _ = port;
        self.opened_sockets.push(copy_chars(name));
        true
    }

    fn close_socket(&mut self, name: &Vec<char>) {
        let _ = name;
    }

    fn write_socket(&mut self, name: &Vec<char>, data: &Vec<char>) {
        let _ = name;
        self.socket_writes.push(copy_chars(data));
    }

    fn read_socket(&mut self, name: &Vec<char>) -> Option<Vec<char>> {
        let _ = name;
        if self.socket_replies.len() > 0 {
            Some(self.socket_replies.remove(0))
        } else {
            None
        }
    }
}

} // verus!
