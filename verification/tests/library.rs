use std::collections::{HashMap, HashSet};

use port_killer::doctor::{
    check_command, check_port_killer_list, check_ss_listens, count_listen_lines, desktop_lines,
    os_release, summary, support_note, ubuntu_apt_fix, Check, CheckStatus, CommandOutput,
};
use port_killer::filter::{dedupe_listeners, owned_by, uid_field};
use port_killer::group::{build_kill_targets, KillTarget};
use port_killer::kill::{kill_pids, kill_process, KillAction, KillError, KillEvent, SignalOutcome};
use port_killer::listener::{
    listeners_from_output, listing_is_readable, output_is_readable, parse_ss_output,
    readable_listeners, ss_failure, Listener,
};
use port_killer::menu::{
    confirm_many_text, confirm_one_text, dropdown_height, run_dropdown, run_menu, run_window,
    MenuAction,
};
use port_killer::output::{json_escape, kill_group_pids, targets_json, waybar_json};
use port_killer::proc::{
    ancestors, direct_children, parse_stat, pgid, ppid, stat_text_sliceable, user_owned_descendants,
    ProcInfo, ProcStat, ProcTable,
};
use port_killer::project::{
    cmdline_from_raw, dir_is_readable, json_string_field, launch_is_readable, resolve_launch_context,
    toml_name_unreadable, toml_package_name, ProjectDir,
};
use port_killer::setup::{
    custom_config_path, default_waybar_config, insert_module_name, patched_style, plan_config_patch,
    update_binary_paths, waybar_module, ConfigEdit, WAYBAR_CSS,
};
use port_killer::setup_gnome::{
    desktop_route, enable_outcome, extension_metadata, extension_state_line, is_gnome_session,
    session_label, DesktopRoute, EnableNote,
};
use port_killer::diagnostics::waybar_diagnostics;
use port_killer::tui::{picker_step, pids_for_selections, PickerAction, PickerEvent, PickerState};

const ME: u32 = 1000;

fn info(ppid: u32, uid: u32) -> ProcInfo {
    ProcInfo {
        stat: Some(ProcStat { ppid, pgid: ppid }),
        uid,
        cwd: None,
        cmdline: None,
    }
}

fn table(entries: &[(u32, u32, u32)]) -> ProcTable {
    let mut procs = HashMap::new();
    for &(pid, parent, uid) in entries {
        procs.insert(pid, info(parent, uid));
    }
    ProcTable { self_uid: ME, procs }
}

fn listener(port: u16, pid: u32, comm: &str) -> Listener {
    Listener {
        port,
        pid,
        comm: comm.to_string(),
        address: "127.0.0.1".to_string(),
        project: "demo".to_string(),
        cwd: "~/code/demo".to_string(),
        launch_cmd: "bun run dev".to_string(),
    }
}

fn ss_line(local: &str, comm: &str, pid: u32) -> String {
    format!("LISTEN 0      511    {local}      0.0.0.0:*    users:((\"{comm}\",pid={pid},fd=22))")
}

const SS_HEADER: &str = "State  Recv-Q Send-Q Local Address:Port Peer Address:Port Process";

// ---------------------------------------------------------------------
// Listing
// ---------------------------------------------------------------------

#[test]
fn listing_keeps_own_dev_servers_sorted_and_unique() {
    let procs = table(&[(10, 1, ME), (20, 1, ME), (30, 1, 0)]);
    let stdout = [
        SS_HEADER.to_string(),
        ss_line("127.0.0.1:5173", "vite", 20),
        ss_line("0.0.0.0:3000", "node", 10),
        ss_line("[::]:3000", "node", 10),
        ss_line("127.0.0.1:22", "sshd", 10),
        ss_line("127.0.0.1:8080", "java", 30),
        ss_line("*:4000", "bun", 10),
    ]
    .join("\n");
    let listed = parse_ss_output(&procs, &stdout);
    let keys: Vec<(u16, u32, String)> = listed
        .iter()
        .map(|l| (l.port, l.pid, l.address.clone()))
        .collect();
    assert_eq!(
        keys,
        vec![
            (3000, 10, "0.0.0.0".to_string()),
            (4000, 10, "*".to_string()),
            (5173, 20, "127.0.0.1".to_string()),
        ]
    );
    assert_eq!(listed[0].project, "?");
    assert_eq!(listed[0].cwd, "?");
    assert_eq!(listed[0].launch_cmd, "?");
}

#[test]
fn listing_skips_the_header_line() {
    let procs = table(&[(10, 1, ME)]);
    let stdout = ss_line("127.0.0.1:3000", "node", 10);
    assert!(parse_ss_output(&procs, &stdout).is_empty());
}

#[test]
fn listing_reads_invalid_utf8_with_replacement() {
    let procs = table(&[(10, 1, ME)]);
    let mut bytes = SS_HEADER.as_bytes().to_vec();
    bytes.push(b'\n');
    bytes.extend_from_slice(b"LISTEN 0      511    127.0.0.1:3000      0.0.0.0:*    users:((\"n\xffde\",pid=10,fd=22))");
    let listed = listeners_from_output(&procs, &bytes);
    assert_eq!(listed.len(), 1);
    assert_eq!(listed[0].comm, "n\u{FFFD}de");
}

#[test]
fn listing_uses_launch_context_of_nearest_ancestor_with_a_directory() {
    let mut procs = table(&[(10, 5, ME), (5, 1, ME)]);
    procs.procs.get_mut(&5).unwrap().cwd = Some(ProjectDir {
        path: "/home/u/code/shop".to_string(),
        shown: "~/code/shop".to_string(),
        name: Some("shop".to_string()),
        package_json: Some("{ \"name\" : \"shop-web\" }".to_string()),
        cargo_toml: None,
        composer_json: None,
    });
    procs.procs.get_mut(&5).unwrap().cmdline = Some("npm run dev".to_string());
    let stdout = [SS_HEADER.to_string(), ss_line("127.0.0.1:3000", "node", 10)].join("\n");
    let listed = parse_ss_output(&procs, &stdout);
    assert_eq!(listed.len(), 1);
    assert_eq!(listed[0].project, "shop-web");
    assert_eq!(listed[0].cwd, "~/code/shop");
    assert_eq!(listed[0].launch_cmd, "npm run dev");
}

#[test]
fn ss_failure_reports_exit_code() {
    assert_eq!(ss_failure(Some(2)), "ss exited with status 2");
    assert_eq!(ss_failure(None), "ss exited with status -1");
}

#[test]
fn dedupe_keeps_first_of_each_port_and_pid() {
    let mut a = listener(3000, 10, "node");
    a.address = "first".to_string();
    let mut b = listener(3000, 10, "node");
    b.address = "second".to_string();
    let c = listener(3000, 11, "node");
    let out = dedupe_listeners(vec![a, b, c]);
    assert_eq!(out.len(), 2);
    assert_eq!(out[0].address, "first");
    assert_eq!(out[1].pid, 11);
}

#[test]
fn compact_and_tooltip_lines() {
    let l = listener(3000, 42, "node");
    assert_eq!(
        l.compact_line(),
        format!(":{:<5}  {:<14}  pid {:<6}  {}", 3000, "node", 42, "127.0.0.1")
    );
    assert_eq!(l.tooltip_line(), ":3000 · demo · node · pid 42");
}

// ---------------------------------------------------------------------
// Processes and grouping
// ---------------------------------------------------------------------

#[test]
fn parent_links_and_ancestors() {
    let procs = table(&[(100, 50, ME), (50, 10, ME), (10, 1, 0), (1, 0, 0)]);
    assert_eq!(ppid(&procs, 100), Some(50));
    assert_eq!(pgid(&procs, 100), Some(50));
    assert_eq!(ppid(&procs, 999), None);
    assert_eq!(ancestors(&procs, 100), vec![50]);
}

#[test]
fn ancestors_stop_on_a_cycle_of_parents() {
    let procs = table(&[(7, 8, ME), (8, 7, ME)]);
    let chain = ancestors(&procs, 7);
    assert!(chain.len() <= 2);
    assert_eq!(chain[0], 8);
}

#[test]
fn children_and_owned_descendants() {
    let procs = table(&[(100, 1, ME), (120, 100, ME), (110, 100, ME), (130, 100, 0), (140, 120, ME), (150, 130, ME)]);
    assert_eq!(direct_children(&procs, 100), vec![110, 120, 130]);
    assert_eq!(user_owned_descendants(&procs, 100), HashSet::from([110, 120, 140, 150]));
}

#[test]
fn unknown_uids_are_never_owned() {
    let mut procs = table(&[(5, 1, u32::MAX)]);
    procs.self_uid = u32::MAX;
    assert!(!port_killer::filter::process_owned_by_current_user(&procs, 5));
    assert!(!port_killer::filter::process_owned_by_current_user(&procs, 6));
    let procs = table(&[(5, 1, ME)]);
    assert!(!port_killer::filter::process_owned_by_current_user(&procs, 6));
    assert!(port_killer::filter::process_owned_by_current_user(&procs, 5));
}

#[test]
fn owned_descendants_below_another_users_process() {
    let procs = table(&[(100, 1, ME), (200, 100, 0), (300, 200, ME), (400, 300, 0)]);
    assert_eq!(user_owned_descendants(&procs, 100), HashSet::from([300]));
    let cycle = table(&[(7, 8, ME), (8, 7, ME)]);
    assert_eq!(user_owned_descendants(&cycle, 7), HashSet::from([8]));
}

#[test]
fn parses_stat_fields() {
    let content = "1234 (node server) S 99 1234 1234 0 -1";
    assert!(stat_text_sliceable(content));
    assert_eq!(parse_stat(content), Some(ProcStat { ppid: 99, pgid: 1234 }));
    assert_eq!(parse_stat("no paren here"), None);
    assert_eq!(parse_stat("1 (x) S"), None);
    assert!(!stat_text_sliceable("1 (x)"));
}

#[test]
fn groups_parent_and_child_listeners_with_their_workers() {
    let procs = table(&[(100, 1, ME), (200, 100, ME), (300, 100, ME), (400, 1, ME), (500, 300, 0)]);
    let targets = build_kill_targets(
        &procs,
        vec![listener(4000, 400, "bun"), listener(3001, 200, "vite"), listener(3000, 100, "node")],
    );
    assert_eq!(targets.len(), 2);
    let first: Vec<(u16, u32)> = targets[0].listeners.iter().map(|l| (l.port, l.pid)).collect();
    assert_eq!(first, vec![(3000, 100), (3001, 200)]);
    assert_eq!(targets[0].extra_pids, HashSet::from([300]));
    assert_eq!(targets[0].all_pids(), HashSet::from([100, 200, 300]));
    assert_eq!(targets[1].listener_pids(), HashSet::from([400]));
    assert!(targets[1].extra_pids.is_empty());
}

#[test]
fn every_listener_pid_is_in_exactly_one_target() {
    let procs = table(&[(10, 1, ME), (11, 10, ME), (12, 1, ME), (13, 12, ME), (14, 1, ME)]);
    let listeners = vec![
        listener(5000, 14, "a"),
        listener(3000, 13, "b"),
        listener(3001, 10, "c"),
        listener(3002, 11, "d"),
        listener(4000, 12, "e"),
    ];
    let targets = build_kill_targets(&procs, listeners.clone());
    for l in &listeners {
        let holders = targets
            .iter()
            .filter(|t| t.listener_pids().contains(&l.pid))
            .count();
        assert_eq!(holders, 1);
    }
    let firsts: Vec<u16> = targets.iter().map(|t| t.listeners[0].port).collect();
    assert_eq!(firsts, vec![3000, 3001, 5000]);
}

#[test]
fn no_listeners_no_targets() {
    assert!(build_kill_targets(&table(&[]), Vec::new()).is_empty());
}

// ---------------------------------------------------------------------
// Display
// ---------------------------------------------------------------------

fn target(listeners: Vec<Listener>, extra: &[u32]) -> KillTarget {
    KillTarget {
        listeners,
        extra_pids: extra.iter().copied().collect(),
    }
}

#[test]
fn cli_line_exact_layout() {
    let t = target(vec![listener(3100, 1, "bun")], &[]);
    assert_eq!(
        t.cli_line(),
        format!("{:<18}  {:<14}  {:<18}  {}", ":3100", "bun", "pid 1", "127.0.0.1")
    );
}

#[test]
fn cli_line_sorts_ports_as_text_and_lists_pids() {
    let mut b = listener(3000, 7, "node");
    b.address = "::1".to_string();
    let t = target(vec![listener(10000, 7, "node"), b, listener(3000, 7, "node")], &[9]);
    assert_eq!(
        t.cli_line(),
        format!(
            "{:<18}  {:<14}  {:<18}  {}",
            ":10000,:3000", "node", "pids 7,9", "127.0.0.1, ::1"
        )
    );
}

#[test]
fn panel_label_and_detail() {
    let t = target(vec![listener(3000, 5, "node")], &[]);
    assert_eq!(t.panel_label(), ":3000  demo (node)");
    assert_eq!(t.panel_detail(), "~/code/demo");
    let t = target(vec![listener(3000, 5, "node")], &[6, 7]);
    assert_eq!(t.panel_detail(), "~/code/demo  +2 related");
    let t = target(vec![listener(3000, 5, "node"), listener(3001, 5, "node")], &[]);
    assert_eq!(t.panel_detail(), "~/code/demo");
    let t = target(vec![listener(3000, 5, "node"), listener(3001, 6, "node")], &[]);
    assert_eq!(t.panel_detail(), "~/code/demo  2 ports");
    let empty = target(Vec::new(), &[]);
    assert_eq!(empty.panel_label(), "  ? (?)");
    assert_eq!(empty.panel_detail(), "?");
}

// ---------------------------------------------------------------------
// JSON
// ---------------------------------------------------------------------

#[test]
fn escapes_control_characters_as_unicode() {
    assert_eq!(json_escape("\u{1}"), "\\u0001");
    assert_eq!(json_escape("\u{9f}x"), "\\u009fx");
    assert_eq!(json_escape("a\tb\rc"), "a\\tb\\rc");
    assert_eq!(json_escape("é·"), "é·");
}

#[test]
fn waybar_json_idle_and_active() {
    assert_eq!(
        waybar_json(&[]),
        "{\"text\":\"0\",\"tooltip\":\"No dev servers\",\"class\":\"idle\"}"
    );
    let ls = vec![listener(3000, 1, "node"), listener(5173, 2, "vite")];
    assert_eq!(
        waybar_json(&ls),
        "{\"text\":\"2\",\"tooltip\":\":3000 · demo · node · pid 1\\n:5173 · demo · vite · pid 2\",\"class\":\"active\"}"
    );
}

#[test]
fn targets_json_lists_index_label_and_detail() {
    let t = target(vec![listener(3000, 5, "no\"de")], &[]);
    assert_eq!(
        targets_json(&[t]),
        "{\"count\":1,\"targets\":[{\"index\":0,\"label\":\":3000  demo (no\\\"de)\",\"detail\":\"~/code/demo\"}]}"
    );
    assert_eq!(targets_json(&[]), "{\"count\":0,\"targets\":[]}");
}

#[test]
fn kill_group_by_index() {
    let targets = vec![target(vec![listener(3000, 5, "node")], &[6])];
    assert_eq!(kill_group_pids(&targets, 0), Ok(HashSet::from([5, 6])));
    assert_eq!(
        kill_group_pids(&targets, 3),
        Err("no kill target at index 3".to_string())
    );
}

// ---------------------------------------------------------------------
// Killing
// ---------------------------------------------------------------------

#[test]
fn kill_run_sends_sigterm_then_sigkill_to_survivors_highest_pid_first() {
    let mut run = kill_pids(&HashSet::from([100, 200]), false);
    assert_eq!(run.next_action(), KillAction::CheckOwner(200));
    run.step(KillEvent::Owner(true));
    assert_eq!(run.next_action(), KillAction::Signal { pid: 200, signal: 15 });
    run.step(KillEvent::Signalled(SignalOutcome::Delivered));
    assert_eq!(run.next_action(), KillAction::CheckRunning(200));
    run.step(KillEvent::Running(true));
    assert_eq!(run.next_action(), KillAction::Signal { pid: 200, signal: 9 });
    run.step(KillEvent::Signalled(SignalOutcome::Delivered));
    assert_eq!(run.next_action(), KillAction::CheckOwner(100));
    run.step(KillEvent::Owner(true));
    run.step(KillEvent::Signalled(SignalOutcome::Delivered));
    run.step(KillEvent::Running(false));
    assert_eq!(run.next_action(), KillAction::Done);
    assert!(matches!(run.finish(), Some(Ok(2))));
}

#[test]
fn kill_run_refuses_other_users_processes() {
    let mut run = kill_process(77, true);
    assert_eq!(run.next_action(), KillAction::CheckOwner(77));
    run.step(KillEvent::Owner(false));
    assert_eq!(run.next_action(), KillAction::Done);
    let err = run.finish().unwrap().unwrap_err();
    assert!(matches!(err, KillError::NotOwned(77)));
    assert_eq!(
        err.message(),
        "refusing to kill pid 77: not owned by current user"
    );
}

#[test]
fn kill_run_with_force_sends_sigkill_once() {
    let mut run = kill_process(5, true);
    run.step(KillEvent::Owner(true));
    assert_eq!(run.next_action(), KillAction::Signal { pid: 5, signal: 9 });
    run.step(KillEvent::Signalled(SignalOutcome::Delivered));
    assert_eq!(run.next_action(), KillAction::Done);
    assert!(matches!(run.finish(), Some(Ok(1))));
}

#[test]
fn kill_run_stops_at_first_failed_signal() {
    let mut run = kill_pids(&HashSet::from([3, 4]), false);
    run.step(KillEvent::Owner(true));
    run.step(KillEvent::Signalled(SignalOutcome::Exited(Some(1))));
    assert_eq!(run.next_action(), KillAction::Done);
    run.step(KillEvent::Owner(true));
    assert_eq!(run.next_action(), KillAction::Done);
    let err = run.finish().unwrap().unwrap_err();
    assert_eq!(err.message(), "failed to kill pid 4: kill exited with status 1");

    let mut run = kill_process(9, false);
    run.step(KillEvent::Owner(true));
    run.step(KillEvent::Signalled(SignalOutcome::Exited(None)));
    assert_eq!(
        run.finish().unwrap().unwrap_err().message(),
        "failed to kill pid 9: kill exited with status -1"
    );

    let mut run = kill_process(9, false);
    run.step(KillEvent::Owner(true));
    run.step(KillEvent::Signalled(SignalOutcome::NotStarted("no such file".to_string())));
    assert_eq!(
        run.finish().unwrap().unwrap_err().message(),
        "failed to kill pid 9: no such file"
    );
}

#[test]
fn kill_run_ignores_answers_of_the_wrong_kind() {
    let mut run = kill_process(9, false);
    run.step(KillEvent::Running(true));
    assert_eq!(run.next_action(), KillAction::CheckOwner(9));
    assert!(run.finish().is_none());
}

#[test]
fn empty_kill_run_is_done_at_once() {
    let run = kill_pids(&HashSet::new(), false);
    assert_eq!(run.next_action(), KillAction::Done);
    assert!(matches!(run.finish(), Some(Ok(0))));
}

// ---------------------------------------------------------------------
// Ownership and project files
// ---------------------------------------------------------------------

#[test]
fn reads_uid_fields() {
    let status = "Name:\tnode\nUid:\t1000\t1000\t1000\t1000\nGid:\t1000\n";
    assert_eq!(uid_field(status, "Uid:"), 1000);
    assert_eq!(uid_field("Name: x\n", "Uid:"), u32::MAX);
    assert_eq!(uid_field("Uid:\tabc\n", "Uid:"), u32::MAX);
    assert!(owned_by(&Some(status.to_string()), &Some("Uid: 1000 0 0 0".to_string())));
    assert!(!owned_by(&Some(status.to_string()), &Some("Uid: 0".to_string())));
    assert!(!owned_by(&None, &None));
    assert!(!owned_by(&None, &Some("Uid: 1000".to_string())));
    assert!(!owned_by(&Some("Name: x".to_string()), &Some("Name: y".to_string())));
}

#[test]
fn reads_manifest_names() {
    assert_eq!(
        json_string_field("{\"name\" :  \"web\", \"x\": 1}", "name"),
        Some("web".to_string())
    );
    assert_eq!(json_string_field("{\"name\": \"\"}", "name"), None);
    let cargo = "[workspace]\nname = \"ws\"\n[package]\nversion = \"1\"\nname = 'crate-x'\n";
    assert_eq!(toml_package_name(cargo), Some("crate-x".to_string()));
    assert_eq!(toml_package_name("[package]\nname = plain\n"), Some("plain".to_string()));
    assert_eq!(toml_package_name("name = \"top\"\n"), None);
    assert!(toml_name_unreadable("[package]\nname = \"\n"));
    assert!(!toml_name_unreadable(cargo));
}

#[test]
fn project_name_precedence_and_readability() {
    let dir = ProjectDir {
        path: "/p".to_string(),
        shown: "/p".to_string(),
        name: None,
        package_json: None,
        cargo_toml: Some("[package]\nname = \"\n".to_string()),
        composer_json: None,
    };
    assert!(!dir_is_readable(&dir));
    let mut procs = table(&[(1, 0, ME), (2, 1, ME), (3, 0, ME)]);
    procs.procs.get_mut(&1).unwrap().cwd = Some(dir);
    assert!(!launch_is_readable(&procs, 1));
    assert!(!launch_is_readable(&procs, 2));
    assert!(launch_is_readable(&procs, 3));
    assert!(launch_is_readable(&table(&[(1, 0, ME)]), 1));
}

fn lone_quote_dir() -> ProjectDir {
    ProjectDir {
        path: "/q".to_string(),
        shown: "/q".to_string(),
        name: Some("q".to_string()),
        package_json: None,
        cargo_toml: Some("[package]\nname = \"\n".to_string()),
        composer_json: None,
    }
}

#[test]
fn unreadable_directory_of_an_unlisted_process_does_not_block_listing() {
    let mut procs = table(&[(10, 1, ME), (77, 1, ME)]);
    procs.procs.get_mut(&77).unwrap().cwd = Some(lone_quote_dir());
    let stdout = [SS_HEADER.to_string(), ss_line("127.0.0.1:3000", "node", 10)].join("\n");
    assert!(listing_is_readable(&procs, &stdout));
    let bytes = stdout.as_bytes().to_vec();
    assert!(output_is_readable(&procs, &bytes));
    let listed = readable_listeners(&procs, &bytes).expect("listing is readable");
    assert_eq!(listed.len(), 1);
    assert_eq!(listed[0].pid, 10);
    assert_eq!(listed[0].port, 3000);
}

#[test]
fn unreadable_launch_directory_of_a_listed_process_refuses_listing() {
    let mut procs = table(&[(10, 1, ME)]);
    procs.procs.get_mut(&10).unwrap().cwd = Some(lone_quote_dir());
    let stdout = [SS_HEADER.to_string(), ss_line("127.0.0.1:3000", "node", 10)].join("\n");
    assert!(!listing_is_readable(&procs, &stdout));
    assert!(readable_listeners(&procs, &stdout.as_bytes().to_vec()).is_none());
    // A line that is not shown (a system port) reads no directory.
    let quiet = [SS_HEADER.to_string(), ss_line("127.0.0.1:22", "sshd", 10)].join("\n");
    assert!(listing_is_readable(&procs, &quiet));
    assert_eq!(readable_listeners(&procs, &quiet.as_bytes().to_vec()).map(|v| v.len()), Some(0));
}

#[test]
fn reads_command_lines() {
    assert_eq!(cmdline_from_raw(&b"node\0server.js\0".to_vec()), Some("node server.js".to_string()));
    assert_eq!(cmdline_from_raw(&Vec::new()), None);
    assert_eq!(cmdline_from_raw(&b"\0\0".to_vec()), None);
}

#[test]
fn resolves_launch_context_from_table() {
    let mut procs = table(&[(42, 1, ME)]);
    procs.procs.get_mut(&42).unwrap().cwd = Some(ProjectDir {
        path: "/srv/app".to_string(),
        shown: "/srv/app".to_string(),
        name: Some("app".to_string()),
        package_json: None,
        cargo_toml: None,
        composer_json: None,
    });
    let ctx = resolve_launch_context(&procs, 42).expect("context");
    assert_eq!(ctx.cwd, "/srv/app");
    assert_eq!(ctx.project, "app");
    assert_eq!(ctx.launch_cmd, "?");
    assert!(resolve_launch_context(&procs, 43).is_none());
}

// ---------------------------------------------------------------------
// Doctor
// ---------------------------------------------------------------------

fn check(name: &str, status: CheckStatus) -> Check {
    Check {
        name: name.to_string(),
        status,
        detail: String::new(),
    }
}

#[test]
fn command_checks_and_summary() {
    let c = check_command("ss (iproute2)", true, "sudo apt install iproute2", None);
    assert_eq!(c.status, CheckStatus::Fail);
    assert_eq!(c.detail, "missing — sudo apt install iproute2");
    assert_eq!(c.line(), "[fail] ss (iproute2) — missing — sudo apt install iproute2");
    let c = check_command("cargo (rustup)", false, "https://rustup.rs", None);
    assert_eq!(c.status, CheckStatus::Warn);
    let c = check_command("cc", true, "x", Some("/usr/bin/cc".to_string()));
    assert_eq!(c.status, CheckStatus::Pass);
    assert_eq!(c.detail, "/usr/bin/cc");

    let checks = vec![check("a", CheckStatus::Fail), check("b", CheckStatus::Warn), check("c", CheckStatus::Pass)];
    assert_eq!(summary(&checks), Err("1 check(s) failed, 1 warning(s)".to_string()));
    assert_eq!(summary(&[check("c", CheckStatus::Pass)]), Ok(()));
}

#[test]
fn apt_fix_lists_packages_for_failures() {
    let ubuntu = Some(("ubuntu".to_string(), "24.04".to_string()));
    let checks = vec![
        check("cc (build-essential)", CheckStatus::Fail),
        check("GTK 4 (built-in menu)", CheckStatus::Warn),
    ];
    assert_eq!(
        ubuntu_apt_fix(&checks, &ubuntu),
        Some("sudo apt update && sudo apt install -y build-essential iproute2 libgtk-4-dev libadwaita-1-dev".to_string())
    );
    let fine = vec![check("GTK 4 (built-in menu)", CheckStatus::Pass)];
    assert_eq!(ubuntu_apt_fix(&fine, &ubuntu), None);
    let fedora = Some(("fedora".to_string(), "40".to_string()));
    assert_eq!(ubuntu_apt_fix(&checks, &fedora), None);
    assert_eq!(ubuntu_apt_fix(&checks, &None), None);
}

#[test]
fn os_release_and_support() {
    assert_eq!(
        os_release("NAME=\"Ubuntu\"\nID=ubuntu\n"),
        Some(("ubuntu".to_string(), "?".to_string()))
    );
    assert_eq!(os_release("VERSION_ID=1\n"), None);
    assert_eq!(support_note("ubuntu", "26.04"), "Ubuntu support: tested target");
    assert_eq!(
        support_note("ubuntu", "22.04"),
        "Ubuntu support: best-effort (tested on 24.04 and 26.04)"
    );
    assert_eq!(
        support_note("arch", "rolling"),
        "Ubuntu support: not targeted (may still work on Linux)"
    );
    assert_eq!(desktop_lines(false, false), vec!["Desktop: port-killer setup desktop --install".to_string()]);
    assert_eq!(desktop_lines(true, true)[0], "Desktop: GNOME (Ubuntu default top bar)");
}

fn output(success: bool, code: Option<i32>, stdout: &str, stderr: &str) -> CommandOutput {
    CommandOutput {
        success,
        code,
        stdout: stdout.as_bytes().to_vec(),
        stderr: stderr.as_bytes().to_vec(),
    }
}

#[test]
fn ss_and_list_checks() {
    assert_eq!(count_listen_lines("State\nLISTEN a\nLISTEN b\nESTAB c\n"), 2);
    let c = check_ss_listens(&Ok(output(true, Some(0), "State\nLISTEN a\n", "")));
    assert_eq!(c.detail, "1 LISTEN socket(s) visible");
    let c = check_ss_listens(&Ok(output(false, Some(3), "", "")));
    assert_eq!((c.status, c.detail.as_str()), (CheckStatus::Fail, "exit 3"));
    let c = check_ss_listens(&Err("not found".to_string()));
    assert_eq!(c.detail, "not found");

    let c = check_port_killer_list(&None);
    assert_eq!(c.status, CheckStatus::Warn);
    let json = "{\"text\":\"0\",\"tooltip\":\"No dev servers\",\"class\":\"idle\"}";
    let c = check_port_killer_list(&Some(Ok(output(true, Some(0), json, ""))));
    assert_eq!(c.status, CheckStatus::Pass);
    assert_eq!(c.detail, json.chars().take(48).collect::<String>());
    let c = check_port_killer_list(&Some(Ok(output(true, Some(0), "oops", ""))));
    assert_eq!(c.detail, "unexpected output");
    let c = check_port_killer_list(&Some(Ok(output(false, Some(1), "", "  bad thing \n"))));
    assert_eq!(c.detail, "bad thing");
}

// ---------------------------------------------------------------------
// Setup
// ---------------------------------------------------------------------

#[test]
fn waybar_module_and_default_config() {
    let module = waybar_module("/b/pk");
    assert!(module.contains("\"exec\": \"/b/pk list\","));
    assert!(module.contains("\"exec-if\": \"test -x /b/pk\","));
    assert!(module.contains("\"on-click\": \"sleep 0.1 && /b/pk menu\","));
    assert!(module.starts_with("    \"custom/port-killer\": {\n"));
    assert_eq!(
        default_waybar_config("M"),
        "{\nM,\n    \"modules-right\": [\"custom/port-killer\"]\n}\n"
    );
}

#[test]
fn updates_bare_binary_paths() {
    let config = "\"exec\": \"port-killer list\", \"exec-if\": \"command -v port-killer\", \"on-click\": \"sleep 0.1 && port-killer menu --gui\"";
    assert_eq!(
        update_binary_paths(config, "/b/pk"),
        "\"exec\": \"/b/pk list\", \"exec-if\": \"test -x /b/pk\", \"on-click\": \"sleep 0.1 && /b/pk menu\""
    );
}

#[test]
fn plans_config_changes() {
    match plan_config_patch(None, "/b/pk") {
        ConfigEdit::Write(t) => assert_eq!(t, default_waybar_config(&waybar_module("/b/pk"))),
        other => panic!("unexpected {other:?}"),
    }
    let configured = format!("{{\n{}\n}}", waybar_module("/b/pk"));
    assert!(matches!(plan_config_patch(Some(configured), "/b/pk"), ConfigEdit::Unchanged));
    let old = "{ \"custom/port-killer\": { \"exec\": \"port-killer list\" } }".to_string();
    match plan_config_patch(Some(old), "/b/pk") {
        ConfigEdit::Refresh(t) => assert!(t.contains("\"exec\": \"/b/pk list\"")),
        other => panic!("unexpected {other:?}"),
    }
    let left_only = "{\n    \"modules-left\": [\"clock\"]\n}".to_string();
    match plan_config_patch(Some(left_only), "/b/pk") {
        ConfigEdit::Write(t) => {
            assert!(t.contains("\"modules-left\": [\n        \"custom/port-killer\",\"clock\"]"));
            assert!(t.contains("\"exec\": \"/b/pk list\""));
        }
        other => panic!("unexpected {other:?}"),
    }
    let right = "{\n    \"modules-right\": [\"clock\"]\n}".to_string();
    match plan_config_patch(Some(right), "/usr/bin/port-killer") {
        ConfigEdit::Write(t) => {
            assert_eq!(
                t,
                format!(
                    "{{\n    \"modules-right\": [\n        \"custom/port-killer\",\"clock\"],\n{}\n}}",
                    waybar_module("/usr/bin/port-killer")
                )
            );
            assert!(matches!(
                plan_config_patch(Some(t), "/usr/bin/port-killer"),
                ConfigEdit::Unchanged
            ));
        }
        other => panic!("unexpected {other:?}"),
    }
}

#[test]
fn module_name_goes_in_once() {
    let once = insert_module_name("{ \"modules-right\": [\"clock\"] }", "modules-right");
    assert_eq!(once, "{ \"modules-right\": [\n        \"custom/port-killer\",\"clock\"] }");
    assert_eq!(insert_module_name(&once, "modules-right"), once);
    assert_eq!(insert_module_name("{}", "modules-right"), "{}");
}

#[test]
fn patches_style() {
    assert_eq!(patched_style("a{}\n#custom-port-killer { background-image: url(\"icons/port-killer-server.svg\"); }"), None);
    assert_eq!(patched_style(""), Some(WAYBAR_CSS.trim_start().to_string()));
    assert_eq!(
        patched_style("window {}"),
        Some(format!("window {{}}\n{WAYBAR_CSS}"))
    );
    assert_eq!(
        patched_style("window {}\n#custom-port-killer { color: red; }\nbar {}\n\n"),
        Some(format!("window {{}}\nbar {{}}\n{}", WAYBAR_CSS.trim_start()))
    );
}

#[test]
fn finds_custom_waybar_config() {
    let ps = "1234 waybar -c /home/u/bar.jsonc -s /home/u/style.css\n";
    assert_eq!(custom_config_path(ps, "/home/u/.config/waybar/config.jsonc"), Some("/home/u/bar.jsonc".to_string()));
    assert_eq!(custom_config_path(ps, "/home/u/bar.jsonc"), None);
    assert_eq!(custom_config_path("1234 waybar\n", "x"), None);
    assert_eq!(custom_config_path("1 waybar -c", "x"), None);
}

#[test]
fn gnome_session_detection() {
    assert!(is_gnome_session(&Some("ubuntu:GNOME".to_string()), false, &None));
    assert!(is_gnome_session(&None, true, &None));
    assert!(is_gnome_session(&None, false, &Some("Gnome-Xorg".to_string())));
    assert!(!is_gnome_session(&Some("KDE".to_string()), false, &Some("plasma".to_string())));
}

#[test]
fn desktop_routes() {
    assert!(matches!(desktop_route(false, true, true, false), DesktopRoute::Gnome { install: false, check: true }));
    assert!(matches!(desktop_route(false, true, false, true), DesktopRoute::Waybar { install: false, check: true }));
    assert!(matches!(desktop_route(false, true, false, false), DesktopRoute::Unknown));
    assert!(matches!(desktop_route(true, false, false, false), DesktopRoute::Gnome { install: true, check: false }));
    assert!(matches!(desktop_route(true, false, false, true), DesktopRoute::Waybar { install: true, check: false }));
    match desktop_route(false, false, false, false) {
        DesktopRoute::Fail(m) => assert!(m.starts_with("Could not detect desktop. Try:\n")),
        other => panic!("unexpected {other:?}"),
    }
}

#[test]
fn reads_gnome_extension_answers() {
    assert_eq!(enable_outcome(true, &Vec::new()), Ok(EnableNote::Enabled));
    assert_eq!(
        enable_outcome(false, &b"Extension is already enabled".to_vec()),
        Ok(EnableNote::AlreadyEnabled)
    );
    assert_eq!(
        enable_outcome(false, &b"Extension \"x\" doesn't exist".to_vec()),
        Ok(EnableNote::NeedsRescan)
    );
    assert_eq!(
        enable_outcome(false, &b"  boom\n".to_vec()),
        Err("gnome-extensions enable failed: boom".to_string())
    );
    assert_eq!(extension_state_line(&b"State: ACTIVE".to_vec(), true), "Extension state: ACTIVE");
    assert_eq!(extension_state_line(&Vec::new(), false), "Extension: not enabled");
    assert_eq!(session_label("GNOME", "wayland"), "GNOME (wayland)");
    assert_eq!(
        extension_metadata("{\"exec\": \"PORT_KILLER_BINARY\"}", "/b/pk"),
        "{\"exec\": \"/b/pk\"}"
    );
}

// ---------------------------------------------------------------------
// Menu and picker
// ---------------------------------------------------------------------

#[test]
fn menu_routes() {
    assert!(matches!(run_menu(true, false, false, false), MenuAction::Interactive));
    assert!(matches!(run_menu(false, false, false, true), MenuAction::Interactive));
    assert!(matches!(run_window(true), MenuAction::Interactive));
    match run_dropdown(false) {
        MenuAction::Fail(m) => assert_eq!(m, "built without GUI; use port-killer menu --tui"),
        other => panic!("unexpected {other:?}"),
    }
    match run_menu(false, false, false, false) {
        MenuAction::Fail(m) => assert_eq!(m, "no display available — use port-killer menu --tui from a terminal"),
        other => panic!("unexpected {other:?}"),
    }
}

#[test]
fn selections_outside_the_list_are_ignored() {
    let listeners = vec![listener(3000, 1, "a"), listener(4000, 2, "b")];
    let targets = vec![
        target(vec![listeners[0].clone()], &[5]),
        target(vec![listeners[1].clone()], &[]),
    ];
    assert_eq!(pids_for_selections(&listeners, &targets, &[7]), HashSet::new());
    assert_eq!(pids_for_selections(&listeners, &targets, &[1, 0]), HashSet::from([1, 2, 5]));
}

#[test]
fn status_cells_and_target_pids() {
    let l = listener(3000, 42, "node");
    assert_eq!(
        l.status_cells(),
        vec![":3000".to_string(), "node".to_string(), "42".to_string(), "127.0.0.1".to_string()]
    );
    let targets = vec![
        target(vec![listener(3000, 1, "a")], &[5]),
        target(vec![listener(4000, 2, "b")], &[]),
    ];
    assert_eq!(port_killer::group::targets_pids(&targets), HashSet::from([1, 2, 5]));
}

#[test]
fn listing_reads_unicode_digits_like_the_pattern() {
    let procs = table(&[(10, 1, ME)]);
    let stdout = [
        SS_HEADER.to_string(),
        "LISTEN ٠      ٥١١    127.0.0.1:3000      0.0.0.0:*    users:((\"node\",pid=10,fd=22))".to_string(),
        "LISTEN 0      511    127.0.0.1:4000      0.0.0.0:*    users:((\"node\",pid=10٣,fd=22))".to_string(),
    ]
    .join("\n");
    let listed = parse_ss_output(&procs, &stdout);
    let ports: Vec<u16> = listed.iter().map(|l| l.port).collect();
    assert_eq!(ports, vec![3000]);
}

#[test]
fn patches_are_idempotent() {
    for content in ["", "window {}", "a {}\n#custom-port-killer { color: red; }\n"] {
        let once = patched_style(content).expect("first patch writes");
        assert_eq!(patched_style(&once), None);
    }
    let once = insert_module_name("{ \"modules-right\": [\"clock\"] }", "modules-right");
    assert_eq!(insert_module_name(&once, "modules-right"), once);
    for existing in [None, Some("{\n    \"modules-right\": [\"clock\"]\n}".to_string()), Some("{}".to_string())] {
        match plan_config_patch(existing, "/b/pk") {
            ConfigEdit::Write(t) => {
                assert!(t.contains("custom/port-killer"));
                assert!(matches!(plan_config_patch(Some(t), "/b/pk"), ConfigEdit::Unchanged));
            }
            other => panic!("unexpected {other:?}"),
        }
    }
}

#[test]
fn second_config_patch_changes_nothing() {
    let configs = [
        None,
        Some("no braces at all".to_string()),
        Some("{\n    \"modules-left\": [\"clock\"],\n}\n".to_string()),
        Some("{ \"layer\": \"top\", \"modules-right\": [], \"modules-left\": [] }".to_string()),
    ];
    for binary in ["port-killer", "/home/u/.local/bin/port-killer", "pk"] {
        for existing in configs.clone() {
            let written = match plan_config_patch(existing, binary) {
                ConfigEdit::Write(t) => t,
                other => panic!("unexpected {other:?}"),
            };
            assert!(written.contains("custom/port-killer"));
            assert!(matches!(plan_config_patch(Some(written.clone()), binary), ConfigEdit::Unchanged));
            assert_eq!(update_binary_paths(&written, binary), written);
        }
    }
}

#[test]
fn escaped_text_reads_back_as_json() {
    let text = "a\"b\\c\nd\u{1}\u{9f}é";
    let escaped = json_escape(text);
    assert_eq!(escaped, "a\\\"b\\\\c\\nd\\u0001\\u009fé");
}

// ---------------------------------------------------------------------
// Waybar diagnostics
// ---------------------------------------------------------------------

#[test]
fn waybar_report_for_a_missing_config_and_no_waybar() {
    let list = Ok(CommandOutput {
        success: true,
        code: Some(0),
        stdout: b"{\"text\":\"\",\"class\":\"idle\",\"tooltip\":\"No dev servers listening\"}".to_vec(),
        stderr: Vec::new(),
    });
    let lines = waybar_diagnostics(
        "/usr/bin/port-killer",
        true,
        "/home/u/.config/waybar/config.jsonc",
        None,
        &list,
        Some(b"  \n".to_vec()),
    );
    assert_eq!(
        lines,
        vec![
            "port-killer Waybar diagnostics",
            "",
            "Binary: /usr/bin/port-killer",
            "Binary exists: true",
            "Config path: /home/u/.config/waybar/config.jsonc",
            "Config exists: false",
            "Module in config: false",
            "",
            "No Waybar config found. Run:",
            "  port-killer setup waybar --install",
            "port-killer list: OK ({\"text\":\"\",\"class\":\"idle\",\"tooltip\":\"No dev servers listenin)",
            "Waybar running: no",
            "",
            "Fix: port-killer setup waybar --install",
        ]
    );
}

#[test]
fn waybar_report_for_a_configured_bar_started_with_another_config() {
    let list = Ok(CommandOutput {
        success: false,
        code: Some(1),
        stdout: Vec::new(),
        stderr: b"  ss exited with status 1\n".to_vec(),
    });
    let config = "{ \"modules-right\": [\"custom/port-killer\"], \"custom/port-killer\": {} }";
    let lines = waybar_diagnostics(
        "./pk",
        false,
        "/c/config.jsonc",
        Some(config.to_string()),
        &list,
        Some(b"123 waybar -c /other/config -s /other/style.css\n".to_vec()),
    );
    assert_eq!(
        lines,
        vec![
            "port-killer Waybar diagnostics",
            "",
            "Binary: ./pk",
            "Binary exists: false",
            "Config path: /c/config.jsonc",
            "Config exists: true",
            "Module in config: true",
            "Module in modules list: true",
            "port-killer list: failed (ss exited with status 1)",
            "Waybar running: yes",
            "  123 waybar -c /other/config -s /other/style.css",
            "",
            "Waybar uses a custom config: /other/config",
            "Patch that file instead:",
            "  port-killer setup waybar --install --config /other/config",
            "",
            "Config looks OK. Restart Waybar if the icon is still missing.",
        ]
    );
}

#[test]
fn waybar_report_for_a_config_without_the_module() {
    let list: Result<CommandOutput, String> = Err("No such file or directory (os error 2)".to_string());
    let lines = waybar_diagnostics(
        "/bin/pk",
        true,
        "/c/config.jsonc",
        Some("{ \"modules-left\": [] }".to_string()),
        &list,
        None,
    );
    assert_eq!(
        lines,
        vec![
            "port-killer Waybar diagnostics",
            "",
            "Binary: /bin/pk",
            "Binary exists: true",
            "Config path: /c/config.jsonc",
            "Config exists: true",
            "Module in config: false",
            "Module in modules list: false",
            "port-killer list: No such file or directory (os error 2)",
            "",
            "Fix: port-killer setup waybar --install",
            "Or merge manually if you use a custom config path:",
            "  port-killer setup waybar --config /c/config.jsonc",
        ]
    );
}

// ---------------------------------------------------------------------
// The terminal picker and the window's questions
// ---------------------------------------------------------------------

fn printed_lines(action: &PickerAction) -> Vec<String> {
    match action {
        PickerAction::Print(lines) => lines.clone(),
        other => panic!("expected lines, got {other:?}"),
    }
}

#[test]
fn picker_reports_an_empty_listing() {
    let (state, action) = picker_step(PickerState::Start, PickerEvent::Listed(0));
    assert_eq!(state, PickerState::Finished);
    assert_eq!(
        printed_lines(&action),
        vec![
            "No dev servers running.".to_string(),
            "Ports scanned: TCP 1024–65535 (system ports excluded).".to_string(),
        ]
    );
}

#[test]
fn picker_walks_through_a_confirmed_kill() {
    let (state, action) = picker_step(PickerState::Start, PickerEvent::Listed(3));
    assert_eq!(state, PickerState::Choosing);
    assert!(matches!(action, PickerAction::Choose));
    let (state, action) = picker_step(state, PickerEvent::Chosen(2));
    assert_eq!(state, PickerState::Confirming);
    match action {
        PickerAction::Confirm(question) => assert_eq!(question, "Kill 2 server(s)?"),
        other => panic!("unexpected {other:?}"),
    }
    let (state, action) = picker_step(state, PickerEvent::Answered(true));
    assert_eq!(state, PickerState::Stopping);
    assert!(matches!(action, PickerAction::Stop));
    let (state, action) = picker_step(state, PickerEvent::Stopped(5));
    assert_eq!(state, PickerState::Finished);
    assert_eq!(printed_lines(&action), vec!["Killed 5 process(es).".to_string()]);
}

#[test]
fn picker_cancels_without_a_choice_or_a_yes() {
    let (state, action) = picker_step(PickerState::Choosing, PickerEvent::Chosen(0));
    assert_eq!(state, PickerState::Finished);
    assert_eq!(printed_lines(&action), vec!["Cancelled.".to_string()]);
    let (state, action) = picker_step(PickerState::Confirming, PickerEvent::Answered(false));
    assert_eq!(state, PickerState::Finished);
    assert_eq!(printed_lines(&action), vec!["Cancelled.".to_string()]);
}

#[test]
fn dropdown_height_is_clamped() {
    assert_eq!(dropdown_height(0), 180);
    assert_eq!(dropdown_height(2), 180);
    assert_eq!(dropdown_height(3), 192);
    assert_eq!(dropdown_height(6), 384);
    assert_eq!(dropdown_height(7), 420);
    assert_eq!(dropdown_height(100), 420);
}

#[test]
fn window_questions_name_groups_and_processes() {
    let one = target(vec![listener(3000, 5, "node")], &[6, 7]);
    assert_eq!(confirm_one_text(&one), "Stop :3000  demo (node)?");
    let two = target(vec![listener(4000, 8, "vite"), listener(4001, 8, "vite")], &[8]);
    assert_eq!(
        confirm_many_text(&[one, two]),
        "Stop 2 group(s) (4 process(es) total)?"
    );
    assert_eq!(confirm_many_text(&[]), "Stop 0 group(s) (0 process(es) total)?");
}
