//! The server's settings.

use vstd::prelude::*;
use vstd::hash_map::StringHashMap;

verus! {

/// The settings table, by setting name.
pub type Settings = StringHashMap<String>;

/// Where the server would keep its database file.
pub struct Config {
    pub dir: String,
    pub dbfilename: String,
}

impl Default for Config {
    /// The current directory and `dump.rdb`.
    fn default() -> (r: Config)
        ensures
            r.dir@ == "."@,
            r.dbfilename@ == "dump.rdb"@,
    {
        Config { dir: String::from_str("."), dbfilename: String::from_str("dump.rdb") }
    }
}

impl Config {
    /// The settings that CONFIG GET reads, by name: `dir` and `dbfilename`.
    pub fn settings(self) -> (r: Settings)
        ensures
            r@ == Map::<Seq<char>, String>::empty().insert("dir"@, self.dir).insert("dbfilename"@, self.dbfilename),
    {
        let mut table: StringHashMap<String> = StringHashMap::new();
        table.insert(String::from_str("dir"), self.dir);
        table.insert(String::from_str("dbfilename"), self.dbfilename);
        table
    }
}

} // verus!
