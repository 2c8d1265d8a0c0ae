use fb_server::cli::{command, report, status_query, usage, Command};
use fb_server::protocol::StatusReply;
use fb_server::tmux::{
    candidates, debug_on, full_args, is_socket_dir, is_tmux_process, probe_args, search_bases,
    status_line_args, tmpdirs_from_environ, Choice, Outcome, Search,
};

fn list(names: &[&str]) -> Vec<String> {
    names.iter().map(|s| s.to_string()).collect()
}

/// Runs a search in which only the given sockets answer.
fn search(sockets: &[&str], bare: bool, answering: &[&str]) -> (Option<String>, usize) {
    let mut state = Search::new(list(sockets));
    let mut calls = 0;
    loop {
        calls += 1;
        let answered = match state.pending() {
            None => bare,
            Some(s) => answering.contains(&s),
        };
        match state.advance(answered) {
            Ok(Choice::Bare) => return (Some("bare".to_string()), calls),
            Ok(Choice::Socket(s)) => return (Some(s), calls),
            Ok(Choice::Unreachable) => return (None, calls),
            Err(next) => state = next,
        }
    }
}

#[test]
fn the_default_socket_is_preferred() {
    assert_eq!(search(&["/a", "/b"], true, &["/a"]), (Some("bare".to_string()), 1));
}

#[test]
fn the_first_answering_candidate_is_used() {
    assert_eq!(search(&["/a", "/b", "/c"], false, &["/b", "/c"]), (Some("/b".to_string()), 3));
}

#[test]
fn a_search_may_fail() {
    assert_eq!(search(&["/a", "/b"], false, &[]), (None, 3));
    assert_eq!(search(&[], false, &[]), (None, 1));
}

#[test]
fn candidates_start_with_the_named_sockets() {
    let found = list(&["/x", "/y", "/y", "/x"]);
    assert_eq!(
        candidates(Some("/s"), Some("/x,123,0"), &found),
        list(&["/s", "/x", "/y", "/x"])
    );
    assert_eq!(candidates(Some(""), Some(",1,2"), &list(&["/x"])), list(&["/x"]));
    assert_eq!(candidates(None, Some("/t"), &[].to_vec()), list(&["/t"]));
    assert!(candidates(None, None, &Vec::new()).is_empty());
}

#[test]
fn bases_are_sorted_and_unique() {
    let running = list(&["/var/tmp", "/tmp", "/a", "/tmp/x"]);
    assert_eq!(
        search_bases(Some("/var/tmp"), &running),
        list(&["/a", "/tmp", "/tmp/x", "/var/tmp"])
    );
    assert_eq!(search_bases(Some(""), &Vec::new()), list(&["/tmp"]));
    let mut expected = list(&["/é", "/z", "/tmp", "/日本"]);
    let got = search_bases(None, &expected);
    expected.sort();
    assert_eq!(got, expected);
}

#[test]
fn tmpdirs_come_from_the_environment_of_servers() {
    let environ = b"HOME=/h\0TMUX_TMPDIR=/run/a\0TMUX_TMPDIR=\0XTMUX_TMPDIR=/no\0TMUX_TMPDIR=/b";
    assert_eq!(tmpdirs_from_environ(environ), list(&["/run/a", "/b"]));
    assert!(tmpdirs_from_environ(b"TMUX_TMPDIR=\xff\xfe\0").is_empty());
    assert_eq!(tmpdirs_from_environ("TMUX_TMPDIR=/é\0".as_bytes()), list(&["/é"]));
    assert!(tmpdirs_from_environ(b"").is_empty());
}

#[test]
fn servers_and_socket_directories_are_known_by_name() {
    assert!(is_tmux_process("tmux: server\n"));
    assert!(is_tmux_process(" \ttmux"));
    assert!(!is_tmux_process("tmu"));
    assert!(!is_tmux_process("xtmux"));
    assert!(is_socket_dir("tmux-1000"));
    assert!(!is_socket_dir("tmux"));
    assert!(!is_socket_dir(" tmux-1"));
}

#[test]
fn arguments_select_the_socket() {
    assert_eq!(full_args(Some("/s"), &["a", "b"]), list(&["-S", "/s", "a", "b"]));
    assert_eq!(full_args(None, &["a"]), list(&["a"]));
    assert_eq!(probe_args(None), list(&["list-sessions"]));
    assert_eq!(probe_args(Some("/s")), list(&["-S", "/s", "list-sessions"]));
    assert_eq!(status_line_args(true), vec!["set", "-g", "status", "on"]);
    assert_eq!(status_line_args(false), vec!["set", "-g", "status", "off"]);
}

#[test]
fn only_successful_calls_give_output() {
    let ran = |success| Outcome::Finished { success, stdout: b"out".to_vec() };
    assert!(!ran(true).failed());
    assert!(ran(false).failed());
    assert!(Outcome::NotStarted.failed());
    assert_eq!(ran(true).captured(), "out");
    assert_eq!(ran(false).captured(), "");
    assert_eq!(Outcome::NotStarted.captured(), "");
}

#[test]
fn output_is_decoded_as_text() {
    let printed = |stdout: &[u8]| {
        Outcome::Finished { success: true, stdout: stdout.to_vec() }.captured()
    };
    assert_eq!(printed("10 $0\n日本\n".as_bytes()), "10 $0\n日本\n");
    assert_eq!(printed(b"a\xffb"), "a\u{fffd}b");
    assert_eq!(printed(b""), "");
}

#[test]
fn debugging_is_switched_on_by_a_value() {
    assert!(debug_on(Some("1")));
    assert!(debug_on(Some("00")));
    assert!(!debug_on(Some("0")));
    assert!(!debug_on(Some("")));
    assert!(!debug_on(None));
}

#[test]
fn commands_are_recognised() {
    assert_eq!(command("serve"), Command::Serve);
    assert_eq!(command("status"), Command::Status);
    assert_eq!(command(""), Command::Help);
    assert_eq!(command("Serve"), Command::Help);
    assert_eq!(usage(""), list(&["使い方: fb-server <serve|status>"]));
    assert_eq!(
        usage("x"),
        list(&["不明なサブコマンド: x", "使い方: fb-server <serve|status>"])
    );
}

#[test]
fn status_is_reported_in_lines() {
    let query = status_query();
    assert_eq!(query.hello, "__status__");
    assert!(query.session.is_none() && query.rect.is_none());
    let reply = StatusReply {
        scene: "paint".to_string(),
        clients: list(&["a", "b"]),
        active_session: Some("$0".to_string()),
    };
    assert_eq!(
        report(&reply),
        list(&["scene: paint", "active tmux session: $0", "clients:", "  - a", "  - b"])
    );
    let idle = StatusReply { scene: "default".to_string(), clients: vec![], active_session: None };
    assert_eq!(report(&idle), list(&["scene: default", "clients: (none)"]));
}
