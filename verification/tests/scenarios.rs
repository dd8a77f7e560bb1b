use std::collections::{HashMap, HashSet};

use port_killer::doctor::parse_os_field;
use port_killer::filter::is_dev_port;
use port_killer::group::{build_kill_targets, KillTarget};
use port_killer::listener::{parse_local_address_port, ss_line_matches, Listener};
use port_killer::output::json_escape;
use port_killer::proc::{connected_listener_components, ProcTable};
use port_killer::project::{project_name_from_dir, shorten_cmd, ProjectDir};
use port_killer::setup::{insert_module_definition, insert_module_name, waybar_module};
use port_killer::tui::pids_for_selections;

fn empty_table() -> ProcTable {
    ProcTable { self_uid: 1000, procs: HashMap::new() }
}

fn listener(port: u16, pid: u32, comm: &str) -> Listener {
    Listener {
        port,
        pid,
        comm: comm.to_string(),
        address: "127.0.0.1".to_string(),
        project: "demo".to_string(),
        cwd: "~/code/demo".to_string(),
        launch_cmd: "bun run dev".to_string(),
    }
}

fn sample() -> KillTarget {
    KillTarget {
        listeners: vec![Listener {
            port: 3100,
            pid: 1,
            comm: "bun".to_string(),
            address: "127.0.0.1".to_string(),
            project: "avsight".to_string(),
            cwd: "~/code/avsight".to_string(),
            launch_cmd: "bun run dev".to_string(),
        }],
        extra_pids: HashSet::new(),
    }
}

#[test]
fn cli_line_is_single_row() {
    let line = sample().cli_line();
    assert!(!line.contains('\n'));
    assert!(line.contains(":3100"));
    assert!(line.contains("bun"));
}

#[test]
fn panel_label_includes_project() {
    let label = sample().panel_label();
    assert!(label.contains("avsight"));
    assert!(label.contains(":3100"));
}

#[test]
fn parses_ubuntu_os_release() {
    let sample = r#"ID=ubuntu
VERSION_ID="24.04""#;
    assert_eq!(parse_os_field(sample, "ID"), Some("ubuntu".to_string()));
    assert_eq!(parse_os_field(sample, "VERSION_ID"), Some("24.04".to_string()));
}

#[test]
fn dev_port_range() {
    assert!(!is_dev_port(80));
    assert!(!is_dev_port(22));
    assert!(is_dev_port(3000));
    assert!(is_dev_port(5173));
    assert!(!is_dev_port(11434));
}

#[test]
fn groups_same_pid_ports_together() {
    let targets = build_kill_targets(
        &empty_table(),
        vec![listener(3000, 100, "node"), listener(3001, 100, "node")],
    );

    assert_eq!(targets.len(), 1);
    assert_eq!(targets[0].listeners.len(), 2);
    assert_eq!(targets[0].listener_pids(), HashSet::from([100]));
}

#[test]
fn keeps_unrelated_listeners_separate_without_proc_links() {
    let targets = build_kill_targets(
        &empty_table(),
        vec![listener(3000, 100, "node"), listener(4000, 200, "bun")],
    );

    assert_eq!(targets.len(), 2);
}

#[test]
fn all_pids_includes_extras() {
    let mut target = KillTarget {
        listeners: vec![listener(3000, 100, "node")],
        extra_pids: HashSet::from([101, 102]),
    };
    assert_eq!(target.all_pids(), HashSet::from([100, 101, 102]));
    target.extra_pids.clear();
    assert_eq!(target.all_pids(), HashSet::from([100]));
}

#[test]
fn parses_ipv4_and_ipv6_local() {
    assert_eq!(
        parse_local_address_port("127.0.0.1:3000"),
        Some(("127.0.0.1".to_string(), 3000))
    );
    assert_eq!(
        parse_local_address_port("[::1]:5173"),
        Some(("[::1]".to_string(), 5173))
    );
    assert_eq!(
        parse_local_address_port("127.0.0.53%lo:53"),
        Some(("127.0.0.53%lo".to_string(), 53))
    );
}

#[test]
fn parses_ubuntu_24_ss_lines() {
    let samples = [
        "LISTEN 0      512          0.0.0.0:3101       0.0.0.0:*    users:((\"node\",pid=74937,fd=16))    ",
        "LISTEN 0      512        127.0.0.1:4096       0.0.0.0:*    users:((\"opencode\",pid=9800,fd=17)) ",
        "LISTEN 0      511        127.0.0.1:27123      0.0.0.0:*    users:((\"obsidian\",pid=34086,fd=39))",
        "LISTEN 0      4096   127.0.0.53%lo:53         0.0.0.0:*    ",
    ];

    for (index, line) in samples.iter().enumerate() {
        let matched = ss_line_matches(line);
        if index < 3 {
            assert!(matched, "expected match: {line}");
        } else {
            assert!(!matched, "system socket without pid should not match: {line}");
        }
    }
}

#[test]
fn ss_grammar_agrees_with_the_pattern() {
    let pattern = regex::Regex::new(
        r#"^LISTEN\s+\d+\s+\d+\s+(\S+)\s+\S+\s+(?:users:)?\(\(\"([^"]+)\",pid=(\d+)"#,
    )
    .unwrap();
    let samples = [
        "LISTEN 0      511    127.0.0.1:3000      0.0.0.0:*    users:((\"node\",pid=12345,fd=22))",
        "LISTEN ٠      ١٢٣    127.0.0.1:3000      0.0.0.0:*    users:((\"node\",pid=12345,fd=22))",
        "LISTEN 0\u{2003}511\u{3000}127.0.0.1:3000 0.0.0.0:* ((\"node\",pid=12345,fd=22))",
        "LISTEN 0      511    127.0.0.1:3000      0.0.0.0:*    users:((\"node\",pid=123٣,fd=22))",
        "LISTEN x      511    127.0.0.1:3000      0.0.0.0:*    users:((\"node\",pid=1,fd=22))",
        "LISTEN 0      511    127.0.0.1:3000      0.0.0.0:*    users:((\"\",pid=1,fd=22))",
        "LISTEN 0      511    127.0.0.1:3000      0.0.0.0:*    users:((\"node\",pid=,fd=22))",
        "LISTEN 𝟎      𝟓    127.0.0.1:3000      0.0.0.0:*    users:((\"node\",pid=9,fd=22))",
    ];
    for line in samples {
        assert_eq!(ss_line_matches(line), pattern.is_match(line), "{line}");
    }
}

#[test]
fn parses_ss_sample() {
    assert!(ss_line_matches(
        "LISTEN 0      511    127.0.0.1:3000      0.0.0.0:*    users:((\"node\",pid=12345,fd=22))"
    ));
}

#[test]
fn escapes_json_strings() {
    assert_eq!(json_escape("a\"b\\c\nd"), "a\\\"b\\\\c\\nd");
}

#[test]
fn unions_parent_child_listener_pids() {
    let pids = HashSet::from([100, 300]);
    let groups = connected_listener_components(&empty_table(), &pids);
    assert_eq!(groups.len(), 2);
}

fn project_dir(name: &str, package_json: Option<&str>) -> ProjectDir {
    ProjectDir {
        path: format!("/tmp/{name}"),
        shown: format!("/tmp/{name}"),
        name: Some(name.to_string()),
        package_json: package_json.map(|s| s.to_string()),
        cargo_toml: None,
        composer_json: None,
    }
}

#[test]
fn parses_package_json_name() {
    let dir = project_dir(
        "port-killer-test-package",
        Some(r#"{"name":"my-app","version":"1.0.0"}"#),
    );
    assert_eq!(project_name_from_dir(&dir), "my-app");
}

#[test]
fn falls_back_to_directory_name() {
    let dir = project_dir("port-killer-demo-project", None);
    assert_eq!(project_name_from_dir(&dir), "port-killer-demo-project");
}

#[test]
fn shortens_long_cmdline() {
    let long = "bun ".to_string() + &"x".repeat(100);
    let short = shorten_cmd(&long);
    assert!(short.ends_with('…'));
    assert!(short.chars().count() <= 80);
}

#[test]
fn inserts_module_definition() {
    let module = waybar_module("/usr/bin/port-killer");
    let input = r#"{
    "layer": "top"
}"#;
    let out = insert_module_definition(input, &module);
    assert!(out.contains("custom/port-killer"));
    assert!(out.contains("\"layer\": \"top\""));
}

#[test]
fn inserts_into_modules_right() {
    let input = r#"{
    "modules-right": ["clock"]
}"#;
    let out = insert_module_name(input, "modules-right");
    assert!(out.contains("\"custom/port-killer\","));
}

#[test]
fn expands_selection_to_related_group_pids() {
    let listeners = vec![Listener {
        port: 3000,
        pid: 999_991,
        comm: "node".to_string(),
        address: "127.0.0.1".to_string(),
        project: "demo".to_string(),
        cwd: "~/code/demo".to_string(),
        launch_cmd: "node".to_string(),
    }];
    let targets = vec![KillTarget {
        listeners: listeners.clone(),
        extra_pids: HashSet::from([999_992]),
    }];
    assert_eq!(
        pids_for_selections(&listeners, &targets, &[0]),
        HashSet::from([999_991, 999_992])
    );
}
