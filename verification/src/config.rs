//! The reference shape of run-configuration data: which benchmark roots to
//! process and which tool identities to apply, as decoded from a
//! configuration document by the caller.

use vstd::prelude::*;

verus! {

/// One named configuration of a tool.
#[derive(Debug)]
pub struct ToolConfig {
    pub name: String,
    pub args: String,
}

/// One tool: its script, display name, and configurations.
#[derive(Debug)]
pub struct Tool {
    pub script: String,
    pub name: String,
    pub configs: Vec<ToolConfig>,
}

/// All configured tools.
#[derive(Debug)]
pub struct Tools {
    pub tools: Vec<Tool>,
}

/// A (script, configuration) tool identity.
#[derive(Debug)]
pub struct ToolID {
    pub script: String,
    pub config: String,
}

impl Clone for ToolID {
    fn clone(&self) -> (res: Self)
        ensures
            res.script@ == self.script@,
            res.config@ == self.config@,
    {
        ToolID { script: self.script.clone(), config: self.config.clone() }
    }
}

/// One run: benchmark roots paired with tool identities.
#[derive(Debug)]
pub struct Run {
    pub roots: Vec<String>,
    pub tools: Vec<ToolID>,
}

/// All configured runs.
#[derive(Debug)]
pub struct Runs {
    pub runs: Vec<Run>,
}

} // verus!
