use bentoo::description::{collect_tools, run_count, Config, Run, Runs, Script, Tool, Tools};
use bentoo::directory::Directory;
use bentoo::metadata::{Metadata, ParseStatus, Status};
use bentoo::report_config::ReportConfig;
use bentoo::truth::{cwe_vecs_eq, CWE};

fn sample_tools() -> Tools {
    Tools {
        tools: vec![
            Script {
                script: String::from("run_a.sh"),
                name: String::from("a"),
                configs: vec![
                    Config { name: String::from("fast"), args: String::from("-q") },
                    Config { name: String::from("deep"), args: String::from("-x") },
                ],
                parse_command: None,
            },
            Script {
                script: String::from("run_b.sh"),
                name: String::from("b"),
                configs: vec![Config { name: String::from("only"), args: String::new() }],
                parse_command: None,
            },
        ],
    }
}

#[test]
fn tools_get_finds_script_and_config() {
    let tools = sample_tools();
    let id = Tool { script: String::from("a"), config: String::from("deep") };
    let (script, config) = tools.get(&id);
    assert_eq!(script.script, "run_a.sh");
    assert_eq!(config.args, "-x");
}

#[test]
fn collect_tools_flattens_configs() {
    let tools = collect_tools(&sample_tools());
    assert_eq!(tools.len(), 3);
    assert_eq!(tools[0].script, "a");
    assert_eq!(tools[0].config, "fast");
    assert_eq!(tools[1].script, "a");
    assert_eq!(tools[1].config, "deep");
    assert_eq!(tools[2].script, "b");
    assert_eq!(tools[2].config, "only");
}

#[test]
fn run_count_multiplies_roots_by_tools() {
    let runs = Runs {
        runs: vec![
            Run {
                roots: vec![String::from("p1"), String::from("p2")],
                tools: vec![
                    Tool { script: String::from("a"), config: String::from("fast") },
                    Tool { script: String::from("a"), config: String::from("deep") },
                    Tool { script: String::from("b"), config: String::from("only") },
                ],
            },
            Run {
                roots: vec![String::from("p3")],
                tools: vec![Tool { script: String::from("b"), config: String::from("only") }],
            },
        ],
    };
    assert_eq!(run_count(&runs), 7);
}

#[test]
fn run_count_of_nothing_is_zero() {
    assert_eq!(run_count(&Runs { runs: vec![] }), 0);
}

#[test]
fn directory_builds_artifact_paths() {
    let dir = Directory {
        output: String::from("out"),
        benchmark: String::from("suite/case1"),
        tool: Tool { script: String::from("scan"), config: String::from("deep") },
    };
    assert_eq!(dir.out_path(), "out/suite/case1/scan_deep.out");
    assert_eq!(dir.err_path(), "out/suite/case1/scan_deep.err");
    assert_eq!(dir.metadata_path(), "out/suite/case1/scan_deep.metadata");
    assert_eq!(dir.sarif_path(), "out/suite/case1/scan_deep.sarif");
    assert_eq!(dir.evaluate_path(), "out/suite/case1/scan_deep.json");
}

#[test]
fn metadata_defaults() {
    let md = Metadata::default();
    assert_eq!(md.status, Status::Exited);
    assert_eq!(md.exit_code, 0);
    assert_eq!(md.time, 0);
    assert_eq!(md.parsed, ParseStatus::No);
    assert!(!md.evaluated);
}

#[test]
fn report_config_defaults() {
    let rc = ReportConfig::default();
    assert!(!rc.detailed);
    assert!(!rc.collect_max_result_cards);
}

#[test]
fn cwe_vec_equality() {
    assert!(cwe_vecs_eq(&vec![CWE(1), CWE(2)], &vec![CWE(1), CWE(2)]));
    assert!(!cwe_vecs_eq(&vec![CWE(1)], &vec![CWE(2)]));
    assert!(!cwe_vecs_eq(&vec![CWE(1)], &vec![CWE(1), CWE(2)]));
    assert!(cwe_vecs_eq(&vec![], &vec![]));
}
