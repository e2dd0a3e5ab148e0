use std::cell::Cell;
use home127::server::{merge_servers, rename_server, with_process, ServerInfo};

fn server(port: u16, title: &str, pid: Option<u32>, path: Option<&str>, active: bool) -> ServerInfo {
    ServerInfo {
        port,
        title: title.to_string(),
        url: format!("http://localhost:{}", port),
        pid,
        path: path.map(|p| p.to_string()),
        command: Some(format!("cmd-{}", port)),
        active,
        custom_name: None,
    }
}

fn labelled(mut s: ServerInfo, name: &str) -> ServerInfo {
    s.custom_name = Some(name.to_string());
    s
}

fn paths(list: &[ServerInfo]) -> Vec<Option<String>> {
    list.iter().map(|s| s.path.clone()).collect()
}

#[test]
fn running_server_refreshes_saved_entry_and_keeps_label() {
    let saved = vec![labelled(server(3000, "Old", Some(1), Some("/a"), false), "Blog")];
    let running = vec![server(5173, "New", Some(42), Some("/a"), true)];
    let merged = merge_servers(saved, running);
    assert_eq!(merged.len(), 1);
    assert_eq!(merged[0].port, 5173);
    assert_eq!(merged[0].title, "New");
    assert_eq!(merged[0].url, "http://localhost:5173");
    assert_eq!(merged[0].pid, Some(42));
    assert_eq!(merged[0].command.as_deref(), Some("cmd-5173"));
    assert!(merged[0].active);
    assert_eq!(merged[0].custom_name.as_deref(), Some("Blog"));
}

#[test]
fn stopped_server_is_retired_but_kept() {
    let saved = vec![labelled(server(3000, "Shop", Some(77), Some("/shop"), true), "Shop")];
    let merged = merge_servers(saved, vec![]);
    assert_eq!(merged.len(), 1);
    assert!(!merged[0].active);
    assert_eq!(merged[0].pid, None);
    assert_eq!(merged[0].port, 3000);
    assert_eq!(merged[0].title, "Shop");
    assert_eq!(merged[0].path.as_deref(), Some("/shop"));
    assert_eq!(merged[0].command.as_deref(), Some("cmd-3000"));
    assert_eq!(merged[0].custom_name.as_deref(), Some("Shop"));
}

#[test]
fn saved_entry_without_path_is_retired() {
    let saved = vec![labelled(server(8000, "Loose", Some(5), None, true), "Mine")];
    let merged = merge_servers(saved, vec![server(9000, "Other", Some(6), None, true)]);
    assert_eq!(merged.len(), 1);
    assert_eq!(merged[0].port, 8000);
    assert_eq!(merged[0].title, "Loose");
    assert_eq!(merged[0].pid, None);
    assert!(!merged[0].active);
    assert_eq!(merged[0].path, None);
    assert_eq!(merged[0].command.as_deref(), Some("cmd-8000"));
    assert_eq!(merged[0].custom_name.as_deref(), Some("Mine"));
}

#[test]
fn paths_stay_distinct_after_a_scan() {
    let saved = vec![
        server(1, "a", None, Some("/a"), false),
        server(2, "b", None, Some("/b"), false),
    ];
    let running = vec![
        server(10, "b", Some(1), Some("/b"), true),
        server(11, "c", Some(2), Some("/c"), true),
        server(12, "c2", Some(3), Some("/c"), true),
        server(13, "a", Some(4), Some("/a"), true),
    ];
    let merged = merge_servers(saved, running);
    let mut seen = paths(&merged);
    let n = seen.len();
    seen.sort();
    seen.dedup();
    assert_eq!(seen.len(), n);
    assert_eq!(n, 3);
}

#[test]
fn new_running_servers_are_appended_once_per_path() {
    let saved = vec![server(3000, "A", None, Some("/a"), false)];
    let running = vec![
        server(4000, "B1", Some(1), Some("/b"), true),
        server(4001, "C", Some(2), Some("/c"), true),
        server(4002, "B2", Some(3), Some("/b"), true),
        server(4003, "NoPath", Some(4), None, true),
    ];
    let merged = merge_servers(saved, running);
    assert_eq!(
        paths(&merged),
        vec![Some("/a".to_string()), Some("/b".to_string()), Some("/c".to_string())]
    );
    // the latest report for /b wins
    assert_eq!(merged[1].port, 4002);
    assert_eq!(merged[1].title, "B2");
    assert_eq!(merged[2].port, 4001);
    assert!(!merged[0].active);
}

#[test]
fn only_first_saved_duplicate_takes_the_running_server() {
    let saved = vec![
        labelled(server(1, "first", None, Some("/d"), false), "one"),
        labelled(server(2, "second", Some(9), Some("/d"), true), "two"),
    ];
    let running = vec![server(5000, "live", Some(10), Some("/d"), true)];
    let merged = merge_servers(saved, running);
    assert_eq!(merged.len(), 2);
    assert_eq!(merged[0].port, 5000);
    assert!(merged[0].active);
    assert_eq!(merged[0].custom_name.as_deref(), Some("one"));
    assert_eq!(merged[1].port, 2);
    assert!(!merged[1].active);
    assert_eq!(merged[1].pid, None);
    assert_eq!(merged[1].custom_name.as_deref(), Some("two"));
}

#[test]
fn rescan_with_same_servers_is_stable() {
    let saved = vec![
        labelled(server(3000, "A", None, Some("/a"), false), "Alpha"),
        server(3001, "Gone", Some(3), Some("/gone"), true),
        server(3002, "NoPath", None, None, false),
    ];
    let running = vec![
        server(5000, "A live", Some(11), Some("/a"), true),
        server(5001, "New", Some(12), Some("/n"), true),
    ];
    let once = merge_servers(saved, running.clone());
    let twice = merge_servers(once.clone(), running);
    assert_eq!(once.len(), twice.len());
    for (x, y) in once.iter().zip(twice.iter()) {
        assert_eq!(x.port, y.port);
        assert_eq!(x.title, y.title);
        assert_eq!(x.url, y.url);
        assert_eq!(x.pid, y.pid);
        assert_eq!(x.path, y.path);
        assert_eq!(x.command, y.command);
        assert_eq!(x.active, y.active);
        assert_eq!(x.custom_name, y.custom_name);
    }
}

#[test]
fn rename_sets_trimmed_label_on_first_match() {
    let saved = vec![
        server(1, "x", None, Some("/p"), false),
        server(2, "y", None, Some("/p"), false),
    ];
    let renamed = rename_server(saved, "/p", Some("  My App \n".to_string())).unwrap();
    assert_eq!(renamed[0].custom_name.as_deref(), Some("My App"));
    assert_eq!(renamed[1].custom_name, None);
    assert_eq!(renamed[0].port, 1);
}

#[test]
fn rename_with_blank_name_clears_label() {
    let saved = vec![labelled(server(1, "x", None, Some("/p"), false), "Old")];
    let renamed = rename_server(saved.clone(), "/p", Some("   ".to_string())).unwrap();
    assert_eq!(renamed[0].custom_name, None);
    let cleared = rename_server(saved, "/p", None).unwrap();
    assert_eq!(cleared[0].custom_name, None);
}

#[test]
fn rename_of_unknown_path_fails() {
    let saved = vec![server(1, "x", None, Some("/p"), false)];
    let err = rename_server(saved, "/q", Some("Name".to_string())).unwrap_err();
    assert_eq!(err, "Server with path '/q' not found");
}

#[test]
fn label_survives_a_later_scan() {
    let saved = vec![server(1, "x", None, Some("/p"), false)];
    let renamed = rename_server(saved, "/p", Some("Docs".to_string())).unwrap();
    let merged = merge_servers(renamed, vec![server(4321, "Live", Some(8), Some("/p"), true)]);
    assert_eq!(merged[0].custom_name.as_deref(), Some("Docs"));
    assert_eq!(merged[0].port, 4321);
}

#[test]
fn rename_twice_is_rename_once() {
    let saved = vec![server(1, "x", None, Some("/p"), false)];
    let once = rename_server(saved, "/p", Some(" Z ".to_string())).unwrap();
    let twice = rename_server(once.clone(), "/p", Some(" Z ".to_string())).unwrap();
    assert_eq!(once[0].custom_name, twice[0].custom_name);
    assert_eq!(once.len(), twice.len());
}

#[test]
fn process_details_fill_in_only_with_a_pid() {
    let asked = Cell::new(0);
    let cwd_of = |pid: u32| -> Option<String> {
        asked.set(asked.get() + 1);
        Some(format!("/w/{}", pid))
    };
    let cmdline_of = |pid: i32| -> Option<String> {
        asked.set(asked.get() + 1);
        Some(format!("node {}", pid))
    };
    let base = server(3000, "A", None, None, false);
    let with = with_process(base.clone(), Some(7), &cwd_of, &cmdline_of);
    assert_eq!(with.pid, Some(7));
    assert_eq!(with.path.as_deref(), Some("/w/7"));
    assert_eq!(with.command.as_deref(), Some("node 7"));
    assert!(with.active);
    assert_eq!(asked.get(), 2);
    let without = with_process(base, None, &cwd_of, &cmdline_of);
    assert_eq!(without.pid, None);
    assert_eq!(without.path, None);
    assert_eq!(without.command.as_deref(), Some("cmd-3000"));
    assert!(without.active);
    assert_eq!(asked.get(), 2);
}
