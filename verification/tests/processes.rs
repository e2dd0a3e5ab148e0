use home127::ports::parse_listening_ports;
use home127::procargs::cmdline_from_procargs;
use home127::process::{
    choose_best_cmdline, command_from_ps_output, cwd_from_lsof_output, get_best_cmdline_for_pid,
    is_renamed_child_process, pid_from_lsof_output, ppid_from_ps_output,
};

const LISTING: &str = "COMMAND   PID USER   FD   TYPE DEVICE SIZE/OFF NODE NAME\n\
node    1234 me   23u  IPv4 0x1      0t0  TCP *:3000 (LISTEN)\n\
node    1234 me   24u  IPv6 0x2      0t0  TCP [::1]:3000 (LISTEN)\n\
python  2222 me    3u  IPv4 0x3      0t0  TCP 127.0.0.1:8000 (LISTEN)\n\
sshd       1 root  3u  IPv4 0x4      0t0  TCP *:22 (LISTEN)\n\
redis   3333 me    6u  IPv4 0x5      0t0  TCP 127.0.0.1:6379 (LISTEN)\n\
rapport 4444 me    7u  IPv4 0x6      0t0  TCP *:50123 (LISTEN)\n\
vite    5555 me   20u  IPv6 0x7      0t0  TCP [::1]:5173 (LISTEN)\r\n\
short line\n\
x\n\
odd     6666 me   21u  IPv4 0x8      0t0  TCP *:http (LISTEN)\n";

#[test]
fn listing_gives_sorted_dev_ports() {
    assert_eq!(parse_listening_ports(LISTING), vec![3000, 5173, 8000]);
}

#[test]
fn header_line_is_skipped_and_empty_listing_gives_nothing() {
    assert_eq!(parse_listening_ports(""), Vec::<u16>::new());
    assert_eq!(
        parse_listening_ports("node 1 me TCP *:4000 (LISTEN)\n"),
        Vec::<u16>::new()
    );
    assert_eq!(
        parse_listening_ports("HEADER\nnode 1 me TCP *:4000 (LISTEN)"),
        vec![4000]
    );
}

#[test]
fn port_text_parses_like_str_parse() {
    let listing = "H\na b +4001 (LISTEN)\na b *:70000 (LISTEN)\na b *:-5 (LISTEN)\na b *: (LISTEN)\na b 0:0080 (LISTEN)\n";
    assert_eq!(parse_listening_ports(listing), vec![80, 4001]);
}

#[test]
fn system_and_ephemeral_ports_are_left_out() {
    let listing = "H\na b *:443 x\na b *:27017 x\na b *:49151 x\na b *:49152 x\na b *:65535 x\n";
    assert_eq!(parse_listening_ports(listing), vec![49151]);
}

#[test]
fn url_port_reads_back() {
    let url = home127::page::url_for_port(5173);
    let listing = format!("H\nx y {} (LISTEN)\n", url);
    assert_eq!(parse_listening_ports(&listing), vec![5173]);
}

#[test]
fn pid_is_first_line_of_lsof() {
    assert_eq!(pid_from_lsof_output(true, " 4242 \n99\n"), Some(4242));
    assert_eq!(pid_from_lsof_output(true, ""), None);
    assert_eq!(pid_from_lsof_output(true, "abc\n12\n"), None);
    assert_eq!(pid_from_lsof_output(false, "12\n"), None);
    assert_eq!(pid_from_lsof_output(true, "4294967296\n"), None);
}

#[test]
fn cwd_is_first_n_line() {
    let out = "p4242\nfcwd\nn/Users/me/project\r\nn/other\n";
    assert_eq!(cwd_from_lsof_output(true, out).as_deref(), Some("/Users/me/project"));
    assert_eq!(cwd_from_lsof_output(true, "p1\nfcwd\n"), None);
    assert_eq!(cwd_from_lsof_output(false, out), None);
    assert_eq!(cwd_from_lsof_output(true, "n\n").as_deref(), Some(""));
}

#[test]
fn ppid_and_command_from_ps() {
    assert_eq!(ppid_from_ps_output(true, "  812\n"), Some(812));
    assert_eq!(ppid_from_ps_output(true, "\n"), None);
    assert_eq!(ppid_from_ps_output(false, "812"), None);
    assert_eq!(
        command_from_ps_output(true, "  node server.js --port 3000 \n").as_deref(),
        Some("node server.js --port 3000")
    );
    assert_eq!(command_from_ps_output(true, " \n "), None);
    assert_eq!(command_from_ps_output(false, "node"), None);
}

#[test]
fn renamed_child_processes_are_recognised() {
    assert!(is_renamed_child_process("next-server (v16.0.7)"));
    assert!(is_renamed_child_process("vite"));
    assert!(is_renamed_child_process(""));
    assert!(!is_renamed_child_process("/usr/bin/node /Users/me/app/server.js"));
    // a bare interpreter name followed by a script still counts as short and bare
    assert!(is_renamed_child_process("node server.js"));
    assert!(!is_renamed_child_process("server.js"));
    assert!(!is_renamed_child_process("app.ts --watch"));
    assert!(!is_renamed_child_process("npm run dev --host"));
    assert!(!is_renamed_child_process("serve -p 3000"));
    assert!(!is_renamed_child_process(
        "some-very-long-process-name with many arguments that go on"
    ));
    // 49 bytes is short enough, 50 is not; multibyte characters count as bytes
    assert!(is_renamed_child_process(&"a".repeat(49)));
    assert!(!is_renamed_child_process(&"a".repeat(50)));
    assert!(!is_renamed_child_process(&"é".repeat(25)));
    assert!(is_renamed_child_process(&"é".repeat(24)));
}

#[test]
fn best_cmdline_prefers_meaningful_parent() {
    let child = Some("next-server (v16.0.7)".to_string());
    let parent = Some("/usr/bin/node /app/node_modules/.bin/next dev".to_string());
    assert_eq!(
        choose_best_cmdline(child.clone(), Some(500), parent.clone()).as_deref(),
        Some("/usr/bin/node /app/node_modules/.bin/next dev")
    );
    assert_eq!(
        choose_best_cmdline(child.clone(), Some(1), parent.clone()).as_deref(),
        Some("next-server (v16.0.7)")
    );
    assert_eq!(
        choose_best_cmdline(child.clone(), None, parent.clone()).as_deref(),
        Some("next-server (v16.0.7)")
    );
    assert_eq!(
        choose_best_cmdline(child.clone(), Some(500), Some("zsh".to_string())).as_deref(),
        Some("next-server (v16.0.7)")
    );
    assert_eq!(
        choose_best_cmdline(Some("/usr/bin/node /app/server.js".to_string()), Some(500), parent).as_deref(),
        Some("/usr/bin/node /app/server.js")
    );
    assert_eq!(choose_best_cmdline(None, Some(500), child), None);
}

#[test]
fn best_cmdline_walks_to_the_parent_process() {
    let cmdline_of = |pid: i32| -> Option<String> {
        match pid {
            100 => Some("next-server (v16.0.7)".to_string()),
            110 => Some("next-server (v1)".to_string()),
            50 => Some("/usr/bin/node /app/next dev".to_string()),
            60 => Some("zsh".to_string()),
            200 => Some("node /srv/index.js".to_string()),
            _ => None,
        }
    };
    let parent_of = |pid: u32| -> Option<u32> {
        match pid {
            100 => Some(50),
            110 => Some(60),
            200 => Some(1),
            _ => None,
        }
    };
    assert_eq!(
        get_best_cmdline_for_pid(100, &cmdline_of, &parent_of).as_deref(),
        Some("/usr/bin/node /app/next dev")
    );
    assert_eq!(
        get_best_cmdline_for_pid(110, &cmdline_of, &parent_of).as_deref(),
        Some("next-server (v1)")
    );
    assert_eq!(
        get_best_cmdline_for_pid(200, &cmdline_of, &parent_of).as_deref(),
        Some("node /srv/index.js")
    );
    assert_eq!(get_best_cmdline_for_pid(300, &cmdline_of, &parent_of), None);
}

fn procargs(argc: i32, body: &[u8]) -> Vec<u8> {
    let mut buf = argc.to_le_bytes().to_vec();
    buf.extend_from_slice(body);
    buf
}

#[test]
fn procargs_give_the_arguments() {
    let buf = procargs(3, b"/usr/local/bin/node\0\0\0\0node\0server.js\0--port=3000\0PATH=/bin\0");
    assert_eq!(
        cmdline_from_procargs(&buf, buf.len()).as_deref(),
        Some("node server.js --port=3000")
    );
}

#[test]
fn procargs_stop_at_the_count_and_the_length() {
    let buf = procargs(5, b"/bin/x\0\0a\0b\0");
    assert_eq!(cmdline_from_procargs(&buf, buf.len()).as_deref(), Some("a b"));
    let buf = procargs(2, b"/bin/x\0\0first\0second\0third\0");
    assert_eq!(cmdline_from_procargs(&buf, buf.len()).as_deref(), Some("first second"));
    // only part of the buffer was filled
    let buf = procargs(2, b"/bin/x\0\0first\0second\0");
    assert_eq!(cmdline_from_procargs(&buf, 18).as_deref(), Some("first"));
    assert_eq!(cmdline_from_procargs(&buf, 14).as_deref(), Some("fi"));
    assert_eq!(cmdline_from_procargs(&buf, 11), None);
}

#[test]
fn procargs_without_arguments_give_nothing() {
    assert_eq!(cmdline_from_procargs(&[1, 0, 0], 3), None);
    let buf = procargs(0, b"/bin/x\0\0a\0");
    assert_eq!(cmdline_from_procargs(&buf, buf.len()), None);
    let buf = procargs(-1, b"/bin/x\0\0a\0");
    assert_eq!(cmdline_from_procargs(&buf, buf.len()), None);
    let buf = procargs(1, b"/bin/only-the-path");
    assert_eq!(cmdline_from_procargs(&buf, buf.len()), None);
    let buf = procargs(1, b"/bin/x\0\0\0");
    assert_eq!(cmdline_from_procargs(&buf, buf.len()), None);
}

#[test]
fn procargs_keep_valid_utf8_arguments() {
    let buf = procargs(2, "/bin/x\0\0caf\u{e9}\0\u{1f600}\0".as_bytes());
    assert_eq!(cmdline_from_procargs(&buf, buf.len()).as_deref(), Some("caf\u{e9} \u{1f600}"));
}

#[test]
fn procargs_decode_invalid_utf8_lossily() {
    let buf = procargs(1, b"/bin/x\0\0a\xffb\0");
    assert_eq!(cmdline_from_procargs(&buf, buf.len()).as_deref(), Some("a\u{fffd}b"));
}
