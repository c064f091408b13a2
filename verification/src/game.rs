use vstd::prelude::*;

verus! {

/// Where a script engine runs.
#[derive(Clone, Copy, Debug, PartialEq, Eq, Structural)]
pub enum Realm {
    Client,
    Server,
    Menu,
}

/// The options the program is started with.
#[derive(Clone, Debug)]
pub struct CliArgs {
    pub map: Option<String>,
    pub dedicated: bool,
    pub tickrate: u32,
}

} // verus!
