//! Descriptions of what to run: the tools (scripts and their
//! configurations) and the runs (benchmark roots paired with tools), as
//! callers hand them in after decoding their description files.

use vstd::prelude::*;
use vstd::arithmetic::mul::lemma_mul_nonnegative;

verus! {

/// How a tool's raw output is turned into a report: a command and its
/// arguments.
#[derive(Debug)]
pub struct ParseCommand {
    pub command: String,
    pub args: String,
}

/// One named configuration of a tool script.
#[derive(Debug)]
pub struct Config {
    pub name: String,
    pub args: String,
}

/// One tool: the script to run, its display name, its configurations, and
/// how to parse its output.
#[derive(Debug)]
pub struct Script {
    pub script: String,
    pub name: String,
    pub configs: Vec<Config>,
    pub parse_command: Option<ParseCommand>,
}

/// All described tools.
#[derive(Debug)]
pub struct Tools {
    pub tools: Vec<Script>,
}

/// One (script, configuration) pair selected for a run.
#[derive(Debug)]
pub struct Tool {
    pub script: String,
    pub config: String,
}

/// The mathematical value of a `Tool`.
pub struct SpecTool {
    pub script: Seq<char>,
    pub config: Seq<char>,
}

impl View for Tool {
    type V = SpecTool;

    open spec fn view(&self) -> SpecTool {
        SpecTool { script: self.script@, config: self.config@ }
    }
}

impl Clone for Tool {
    fn clone(&self) -> (res: Self)
        ensures
            res@ == self@,
    {
        Tool { script: self.script.clone(), config: self.config.clone() }
    }
}

/// The first index of a script with the given name.
pub open spec fn script_index(ts: Seq<Script>, name: Seq<char>) -> Option<int>
    decreases ts.len(),
{
    if ts.len() == 0 {
        None
    } else if ts[0].name@ == name {
        Some(0)
    } else {
        match script_index(ts.drop_first(), name) {
            Some(i) => Some(i + 1),
            None => None,
        }
    }
}

/// The first index of a configuration with the given name.
pub open spec fn config_index(cs: Seq<Config>, name: Seq<char>) -> Option<int>
    decreases cs.len(),
{
    if cs.len() == 0 {
        None
    } else if cs[0].name@ == name {
        Some(0)
    } else {
        match config_index(cs.drop_first(), name) {
            Some(i) => Some(i + 1),
            None => None,
        }
    }
}

/// What a first-index result says: the hit is in range, matches, and
/// nothing before it does; `None` means nothing matches.
proof fn lemma_script_index_char(ts: Seq<Script>, name: Seq<char>)
    ensures
        match script_index(ts, name) {
            Some(i) => 0 <= i < ts.len() && ts[i].name@ == name && forall|j: int|
                0 <= j < i ==> (#[trigger] ts[j]).name@ != name,
            None => forall|j: int| 0 <= j < ts.len() ==> (#[trigger] ts[j]).name@ != name,
        },
    decreases ts.len(),
{
    if ts.len() > 0 && ts[0].name@ != name {
        lemma_script_index_char(ts.drop_first(), name);
        match script_index(ts.drop_first(), name) {
            Some(i) => {
                assert(ts.drop_first()[i] == ts[i + 1]);
                assert forall|j: int| 0 <= j < i + 1 implies (#[trigger] ts[j]).name@ != name by {
                    if j > 0 {
                        assert(ts.drop_first()[j - 1] == ts[j]);
                    }
                }
            },
            None => {
                assert forall|j: int| 0 <= j < ts.len() implies (#[trigger] ts[j]).name@
                    != name by {
                    if j > 0 {
                        assert(ts.drop_first()[j - 1] == ts[j]);
                    }
                }
            },
        }
    }
}

/// What a first-index result says, for configurations.
proof fn lemma_config_index_char(cs: Seq<Config>, name: Seq<char>)
    ensures
        match config_index(cs, name) {
            Some(i) => 0 <= i < cs.len() && cs[i].name@ == name && forall|j: int|
                0 <= j < i ==> (#[trigger] cs[j]).name@ != name,
            None => forall|j: int| 0 <= j < cs.len() ==> (#[trigger] cs[j]).name@ != name,
        },
    decreases cs.len(),
{
    if cs.len() > 0 && cs[0].name@ != name {
        lemma_config_index_char(cs.drop_first(), name);
        match config_index(cs.drop_first(), name) {
            Some(i) => {
                assert(cs.drop_first()[i] == cs[i + 1]);
                assert forall|j: int| 0 <= j < i + 1 implies (#[trigger] cs[j]).name@ != name by {
                    if j > 0 {
                        assert(cs.drop_first()[j - 1] == cs[j]);
                    }
                }
            },
            None => {
                assert forall|j: int| 0 <= j < cs.len() implies (#[trigger] cs[j]).name@
                    != name by {
                    if j > 0 {
                        assert(cs.drop_first()[j - 1] == cs[j]);
                    }
                }
            },
        }
    }
}

impl Tools {
    /// The described tools contain a script named as `id` asks, and that
    /// script has the configuration `id` asks for.
    pub open spec fn resolves(self, id: SpecTool) -> bool {
        match script_index(self.tools@, id.script) {
            Some(i) => config_index(self.tools@[i].configs@, id.config) is Some,
            None => false,
        }
    }

    /// Look a tool up by its script and configuration names: the first
    /// script whose name is `id.script` and its first configuration named
    /// `id.config`.
    pub fn get<'a>(&'a self, id: &Tool) -> (r: (&'a Script, &'a Config))
        requires
            self.resolves(id@),
        ensures
            ({
                let i = script_index(self.tools@, id@.script)->Some_0;
                let j = config_index(self.tools@[i].configs@, id@.config)->Some_0;
                r.0 == self.tools@[i] && r.1 == self.tools@[i].configs@[j]
            }),
    {
        proof {
            lemma_script_index_char(self.tools@, id@.script);
        }
        let ghost si = script_index(self.tools@, id@.script)->Some_0;
        let mut i: usize = 0;
        while i < self.tools.len()
            invariant
                self.resolves(id@),
                script_index(self.tools@, id@.script) == Some(si),
                0 <= si < self.tools@.len(),
                self.tools@[si].name@ == id@.script,
                forall|j: int| 0 <= j < si ==> (#[trigger] self.tools@[j]).name@ != id@.script,
                i <= si,
            decreases self.tools@.len() - i,
        {
            if self.tools[i].name == id.script {
                proof {
                    assert(i == si);
                    lemma_config_index_char(self.tools@[si].configs@, id@.config);
                }
                let script = &self.tools[i];
                let ghost sj = config_index(self.tools@[si].configs@, id@.config)->Some_0;
                let mut j: usize = 0;
                while j < script.configs.len()
                    invariant
                        script_index(self.tools@, id@.script) == Some(si),
                        0 <= si < self.tools@.len(),
                        script == self.tools@[si],
                        config_index(self.tools@[si].configs@, id@.config) == Some(sj),
                        0 <= sj < script.configs@.len(),
                        script.configs@[sj].name@ == id@.config,
                        forall|k: int|
                            0 <= k < sj ==> (#[trigger] script.configs@[k]).name@ != id@.config,
                        j <= sj,
                    decreases script.configs@.len() - j,
                {
                    if script.configs[j].name == id.config {
                        proof {
                            assert(j == sj);
                        }
                        return (script, &script.configs[j]);
                    }
                    j += 1;
                }
                proof {
                    assert(false);
                }
            }
            i += 1;
        }
        proof {
            assert(false);
        }
        (&self.tools[0], &self.tools[0].configs[0])
    }
}

/// The described tools together with the directory their scripts live in.
#[derive(Debug)]
pub struct ToolsInfo {
    pub root: String,
    pub tools: Tools,
}

/// One run: benchmark roots, each to be evaluated with each listed tool.
#[derive(Debug)]
pub struct Run {
    pub roots: Vec<String>,
    pub tools: Vec<Tool>,
}

/// All described runs.
#[derive(Debug)]
pub struct Runs {
    pub runs: Vec<Run>,
}

/// The described runs together with the directory they are relative to.
#[derive(Debug)]
pub struct RunsInfo {
    pub root: String,
    pub runs: Runs,
}

/// The (script name, configuration name) pairs of one script, in order.
pub open spec fn spec_script_tools(s: Script) -> Seq<SpecTool>
    decreases s.configs@.len(),
{
    s.configs@.map_values(|c: Config| SpecTool { script: s.name@, config: c.name@ })
}

/// Every (script, configuration) pair the description lists, in order.
pub open spec fn spec_collect_tools(ts: Seq<Script>) -> Seq<SpecTool>
    decreases ts.len(),
{
    if ts.len() == 0 {
        Seq::empty()
    } else {
        spec_collect_tools(ts.drop_last()) + spec_script_tools(ts.last())
    }
}

/// Flatten a tools description into one `Tool` per (script, configuration)
/// pair.
pub fn collect_tools(tools_desc: &Tools) -> (r: Vec<Tool>)
    ensures
        r@.map_values(|t: Tool| t@) == spec_collect_tools(tools_desc.tools@),
{
    let mut tools: Vec<Tool> = Vec::new();
    let n: usize = tools_desc.tools.len();
    let mut i: usize = 0;
    while i < n
        invariant
            n == tools_desc.tools@.len(),
            i <= n,
            tools@.map_values(|t: Tool| t@) == spec_collect_tools(tools_desc.tools@.take(i as int)),
        decreases n - i,
    {
        let script = &tools_desc.tools[i];
        let ghost before = tools@.map_values(|t: Tool| t@);
        let m: usize = script.configs.len();
        let mut j: usize = 0;
        while j < m
            invariant
                i < n == tools_desc.tools@.len(),
                m == script.configs@.len(),
                script == tools_desc.tools@[i as int],
                j <= m,
                tools@.map_values(|t: Tool| t@) == before + spec_script_tools(*script).take(
                    j as int,
                ),
            decreases m - j,
        {
            let ghost tools_before = tools@;
            tools.push(
                Tool { script: script.name.clone(), config: script.configs[j].name.clone() },
            );
            proof {
                let f = |t: Tool| t@;
                assert(tools@ =~= tools_before.push(tools@[tools@.len() - 1]));
                assert(tools@.map_values(f) =~= tools_before.map_values(f).push(
                    SpecTool { script: script.name@, config: script.configs@[j as int].name@ },
                ));
                assert(spec_script_tools(*script).take(j + 1 as int) =~= spec_script_tools(
                    *script,
                ).take(j as int).push(
                    SpecTool { script: script.name@, config: script.configs@[j as int].name@ },
                ));
                assert(tools@.map_values(f) =~= before + spec_script_tools(*script).take(
                    j + 1 as int,
                ));
            }
            j += 1;
        }
        proof {
            assert(spec_script_tools(*script).take(m as int) =~= spec_script_tools(*script));
            assert(tools_desc.tools@.take(i + 1 as int).drop_last() =~= tools_desc.tools@.take(
                i as int,
            ));
            assert(tools_desc.tools@.take(i + 1 as int).last() == tools_desc.tools@[i as int]);
        }
        i += 1;
    }
    proof {
        assert(tools_desc.tools@.take(n as int) =~= tools_desc.tools@);
    }
    tools
}

/// How many (benchmark, tool) pairs the runs describe.
pub open spec fn spec_run_count(rs: Seq<Run>) -> int
    decreases rs.len(),
{
    if rs.len() == 0 {
        0
    } else {
        spec_run_count(rs.drop_last()) + rs.last().roots@.len() * rs.last().tools@.len()
    }
}

/// The run count only grows with more runs.
proof fn lemma_run_count_nonneg(rs: Seq<Run>)
    ensures
        spec_run_count(rs) >= 0,
    decreases rs.len(),
{
    if rs.len() > 0 {
        lemma_run_count_nonneg(rs.drop_last());
        lemma_mul_nonnegative(rs.last().roots@.len() as int, rs.last().tools@.len() as int);
    }
}

/// A prefix never counts more than the whole.
proof fn lemma_run_count_prefix_le(rs: Seq<Run>, i: int)
    requires
        0 <= i <= rs.len(),
    ensures
        spec_run_count(rs.take(i)) <= spec_run_count(rs),
    decreases rs.len() - i,
{
    if i < rs.len() {
        lemma_run_count_prefix_le(rs, i + 1);
        assert(rs.take(i + 1).drop_last() =~= rs.take(i));
        assert(rs.take(i + 1).last() == rs[i]);
        lemma_mul_nonnegative(rs[i].roots@.len() as int, rs[i].tools@.len() as int);
    } else {
        assert(rs.take(i) =~= rs);
    }
}

/// The total number of (benchmark, tool) pairs the runs describe.
pub fn run_count(runs: &Runs) -> (r: usize)
    requires
        spec_run_count(runs.runs@) <= usize::MAX,
    ensures
        r == spec_run_count(runs.runs@),
{
    let mut result: usize = 0;
    let n: usize = runs.runs.len();
    let mut i: usize = 0;
    while i < n
        invariant
            n == runs.runs@.len(),
            i <= n,
            spec_run_count(runs.runs@) <= usize::MAX,
            result == spec_run_count(runs.runs@.take(i as int)),
        decreases n - i,
    {
        let run = &runs.runs[i];
        proof {
            assert(runs.runs@.take(i + 1 as int).drop_last() =~= runs.runs@.take(i as int));
            assert(runs.runs@.take(i + 1 as int).last() == runs.runs@[i as int]);
            lemma_run_count_prefix_le(runs.runs@, i + 1 as int);
            lemma_run_count_nonneg(runs.runs@.take(i as int));
            lemma_mul_nonnegative(
                runs.runs@[i as int].roots@.len() as int,
                runs.runs@[i as int].tools@.len() as int,
            );
        }
        let pairs: usize = run.roots.len() * run.tools.len();
        result += pairs;
        i += 1;
    }
    proof {
        assert(runs.runs@.take(n as int) =~= runs.runs@);
    }
    result
}

} // verus!
