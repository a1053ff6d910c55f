//! Where the artifacts of one (benchmark, tool) run live: the output
//! directory layout as path strings, `<output>/<benchmark>/<script>_<config>.<ext>`.
//! Reading and writing those files is the caller's business; this module
//! only builds the names.

use vstd::prelude::*;
use vstd::string::StringExecFns;

use crate::description::Tool;

verus! {

/// The output directory of one (benchmark, tool) pair.
#[derive(Debug)]
pub struct Directory {
    pub output: String,
    pub benchmark: String,
    pub tool: Tool,
}

/// `<script>_<config>`: the file-name stem of a tool.
pub open spec fn spec_tool_name(d: Directory) -> Seq<char> {
    d.tool.script@ + seq!['_'] + d.tool.config@
}

/// `<output>/<benchmark>/<script>_<config>.<ext>`.
pub open spec fn spec_path_to_file(d: Directory, ext: Seq<char>) -> Seq<char> {
    d.output@ + seq!['/'] + d.benchmark@ + seq!['/'] + spec_tool_name(d) + seq!['.'] + ext
}

impl Directory {
    /// `<script>_<config>`.
    fn tool_name(&self) -> (r: String)
        ensures
            r@ == spec_tool_name(*self),
    {
        proof {
            reveal_strlit("_");
        }
        let mut s = self.tool.script.clone();
        s.append("_");
        s.append(self.tool.config.as_str());
        s
    }

    /// The path of the file `<script>_<config>.<ext>` in this directory.
    fn path_to_file(&self, extension: &str) -> (r: String)
        ensures
            r@ == spec_path_to_file(*self, extension@),
    {
        proof {
            reveal_strlit("/");
            reveal_strlit(".");
        }
        let mut s = self.output.clone();
        s.append("/");
        s.append(self.benchmark.as_str());
        s.append("/");
        let name = self.tool_name();
        s.append(name.as_str());
        s.append(".");
        s.append(extension);
        s
    }

    /// The path of the tool's captured standard output.
    pub fn out_path(&self) -> (r: String)
        ensures
            r@ == spec_path_to_file(*self, "out"@),
    {
        self.path_to_file("out")
    }

    /// The path of the tool's captured standard error.
    pub fn err_path(&self) -> (r: String)
        ensures
            r@ == spec_path_to_file(*self, "err"@),
    {
        self.path_to_file("err")
    }

    /// The path of the run's metadata record.
    pub fn metadata_path(&self) -> (r: String)
        ensures
            r@ == spec_path_to_file(*self, "metadata"@),
    {
        self.path_to_file("metadata")
    }

    /// The path of the tool's normalized report.
    pub fn sarif_path(&self) -> (r: String)
        ensures
            r@ == spec_path_to_file(*self, "sarif"@),
    {
        self.path_to_file("sarif")
    }

    /// The path of the run's evaluation card.
    pub fn evaluate_path(&self) -> (r: String)
        ensures
            r@ == spec_path_to_file(*self, "json"@),
    {
        self.path_to_file("json")
    }
}

} // verus!
