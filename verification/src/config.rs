//! Configuration values the tool runs with: the storage root and the editor
//! command. Loading them from a configuration file is the shell's concern;
//! the library only consumes validated values.

use vstd::prelude::*;

verus! {

/// The storage root path and the editor command.
pub struct Config {
    pub path: String,
    pub editor: String,
}

impl Config {
    /// The values used when no configuration file exists.
    pub fn default() -> (c: Config)
        ensures
            c.path@ == "~/.zk"@,
            c.editor@ == "vim"@,
    {
        Config { path: "~/.zk".to_owned(), editor: "vim".to_owned() }
    }

    /// The name of the configuration file looked up by the shell.
    pub fn filename() -> (r: String)
        ensures
            r@ == ".zk.toml"@,
    {
        ".zk.toml".to_owned()
    }
}

impl Clone for Config {
    /// Cloning preserves both values.
    fn clone(&self) -> (r: Self)
        ensures
            r.path@ == self.path@,
            r.editor@ == self.editor@,
    {
        Config { path: self.path.clone(), editor: self.editor.clone() }
    }
}

} // verus!
