//! The names under which built-in commands are found.
use vstd::prelude::*;

use crate::strmap::StrMap;
use crate::text::str_eq;

verus! {

/// The built-in commands.
#[derive(Debug, PartialEq, Eq, Structural, Clone, Copy)]
pub enum Builtin {
    Cat,
    Cd,
    Complete,
    Declare,
    Echo,
    Exit,
    History,
    Jobs,
    Ls,
    Mkdir,
    Pwd,
    Rm,
    Touch,
}

/// The built-ins registered when a registry is made.
pub open spec fn default_builtins() -> Map<Seq<char>, Builtin> {
    Map::empty()
        .insert("cat"@, Builtin::Cat)
        .insert("cd"@, Builtin::Cd)
        .insert("complete"@, Builtin::Complete)
        .insert("declare"@, Builtin::Declare)
        .insert("echo"@, Builtin::Echo)
        .insert("exit"@, Builtin::Exit)
        .insert("history"@, Builtin::History)
        .insert("jobs"@, Builtin::Jobs)
        .insert("ls"@, Builtin::Ls)
        .insert("mkdir"@, Builtin::Mkdir)
        .insert("pwd"@, Builtin::Pwd)
        .insert("rm"@, Builtin::Rm)
        .insert("touch"@, Builtin::Touch)
}

/// Built-in commands by name.
pub struct CommandRegistry {
    builtins: StrMap<Builtin>,
}

impl CommandRegistry {
    /// The registered names.
    pub closed spec fn builtins(&self) -> Map<Seq<char>, Builtin> {
        self.builtins.map()
    }

    /// A registry with every built-in command under its usual name.
    pub fn new() -> (r: Self)
        ensures
            r.builtins() == default_builtins(),
    {
        let mut r = CommandRegistry { builtins: StrMap::new() };
        r.register_builtin("cat".to_string(), Builtin::Cat);
        r.register_builtin("cd".to_string(), Builtin::Cd);
        r.register_builtin("complete".to_string(), Builtin::Complete);
        r.register_builtin("declare".to_string(), Builtin::Declare);
        r.register_builtin("echo".to_string(), Builtin::Echo);
        r.register_builtin("exit".to_string(), Builtin::Exit);
        r.register_builtin("history".to_string(), Builtin::History);
        r.register_builtin("jobs".to_string(), Builtin::Jobs);
        r.register_builtin("ls".to_string(), Builtin::Ls);
        r.register_builtin("mkdir".to_string(), Builtin::Mkdir);
        r.register_builtin("pwd".to_string(), Builtin::Pwd);
        r.register_builtin("rm".to_string(), Builtin::Rm);
        r.register_builtin("touch".to_string(), Builtin::Touch);
        r
    }

    /// Registers `command` under `name`, replacing any earlier one.
    pub fn register_builtin(&mut self, name: String, command: Builtin)
        ensures
            final(self).builtins() == old(self).builtins().insert(name@, command),
    {
        self.builtins.insert(name, command);
    }

    /// The built-in registered under `name`.
    pub fn get_builtin(&self, name: &str) -> (r: Option<Builtin>)
        ensures
            match r {
                Some(b) => self.builtins().dom().contains(name@) && self.builtins()[name@] == b,
                None => !self.builtins().dom().contains(name@),
            },
    {
        match self.builtins.get(name) {
            Some(b) => Some(*b),
            None => None,
        }
    }

    /// Whether `name` runs inside the shell: `type` or a registered built-in.
    pub fn is_builtin_name(&self, name: &str) -> (r: bool)
        ensures
            r == (name@ == "type"@ || self.builtins().dom().contains(name@)),
    {
        str_eq(name, "type") || self.get_builtin(name).is_some()
    }
}

} // verus!
