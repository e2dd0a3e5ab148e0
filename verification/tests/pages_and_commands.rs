use home127::commands::{greet, kill_arguments, kill_outcome, menu_action, MenuAction};
use home127::page::{is_html_response, server_from_page, server_from_title, url_for_port};
use home127::text::trim_str;

#[test]
fn html_content_types_are_recognised() {
    assert!(is_html_response("text/html"));
    assert!(is_html_response("text/html; charset=utf-8"));
    assert!(!is_html_response("application/json"));
    assert!(!is_html_response(""));
    assert!(!is_html_response("text/htm"));
}

#[test]
fn page_title_becomes_the_server_title() {
    let doc = "<!doctype html><html><head><title>  My App  </title></head><body>hi</body></html>";
    let s = server_from_page(3000, doc);
    assert_eq!(s.port, 3000);
    assert_eq!(s.title, "My App");
    assert_eq!(s.url, "http://localhost:3000");
    assert_eq!(s.pid, None);
    assert_eq!(s.path, None);
    assert_eq!(s.command, None);
    assert!(s.active);
    assert_eq!(s.custom_name, None);
}

#[test]
fn only_the_first_title_counts() {
    let doc = "<html><head><title>First</title><title>Second</title></head></html>";
    assert_eq!(server_from_page(80, doc).title, "First");
}

#[test]
fn title_pieces_are_joined() {
    let doc = "<html><head><title>A &amp; <!-- c -->B</title></head></html>";
    // a title holds raw text: entities are decoded, markup is kept as text
    assert_eq!(server_from_page(80, doc).title, "A & <!-- c -->B");
    assert_eq!(home127::page::document_title("<title></title>").as_deref(), Some(""));
    assert_eq!(home127::page::document_title("<p>x</p>"), None);
}

#[test]
fn page_without_title_is_an_unknown_server() {
    let s = server_from_page(8080, "<html><body>no title</body></html>");
    assert_eq!(s.title, "Unknown Server");
    assert_eq!(s.url, "http://localhost:8080");
    let s = server_from_title(1, None);
    assert_eq!(s.title, "Unknown Server");
    let s = server_from_title(65535, Some("\tX\n".to_string()));
    assert_eq!(s.title, "X");
    assert_eq!(s.url, "http://localhost:65535");
}

#[test]
fn urls_are_decimal() {
    assert_eq!(url_for_port(0), "http://localhost:0");
    assert_eq!(url_for_port(5173), "http://localhost:5173");
    assert_eq!(url_for_port(10), "http://localhost:10");
}

#[test]
fn trim_removes_unicode_whitespace() {
    assert_eq!(trim_str("\u{a0}\u{3000} a b \u{2028}"), "a b");
    assert_eq!(trim_str("   "), "");
    assert_eq!(trim_str("x"), "x");
}

#[test]
fn greeting_names_the_guest() {
    assert_eq!(greet("Tauri"), "Hello, Tauri! You've been greeted from Rust!");
    assert_eq!(greet(""), "Hello, ! You've been greeted from Rust!");
}

#[test]
fn kill_uses_signal_nine() {
    assert_eq!(kill_arguments(4242), vec!["-9".to_string(), "4242".to_string()]);
    assert_eq!(kill_arguments(0), vec!["-9".to_string(), "0".to_string()]);
    assert_eq!(
        kill_arguments(u32::MAX),
        vec!["-9".to_string(), "4294967295".to_string()]
    );
}

#[test]
fn kill_outcome_reports_error_output() {
    assert_eq!(kill_outcome(true, b"ignored"), Ok(()));
    assert_eq!(
        kill_outcome(false, b"kill: 99999: No such process\n"),
        Err("kill: 99999: No such process\n".to_string())
    );
}

#[test]
fn menu_entries_map_to_actions() {
    assert_eq!(menu_action("quit"), MenuAction::Quit);
    assert_eq!(menu_action("feedback"), MenuAction::CopyFeedback);
    assert_eq!(menu_action("about"), MenuAction::Nothing);
    assert_eq!(menu_action("Quit"), MenuAction::Nothing);
}
