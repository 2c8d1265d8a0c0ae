use fb_server::protocol::{frame, socket_path, Hello, Rect, RectUpdate, STATUS_QUERY_NAME};
use fb_server::scenes::{Config, RawConfig, RawScene};
use fb_server::server::{current_scene, Action, Event, Greeting, Phase, Shared};
use fb_server::sessions::{listing_args, query_active_session};

fn list(names: &[&str]) -> Vec<String> {
    names.iter().map(|s| s.to_string()).collect()
}

fn config() -> Config {
    let scenes = vec![
        (
            "ssbrowse".to_string(),
            RawScene { extends: None, add: list(&["ssbrowse"]), layers: None },
        ),
        (
            "paint".to_string(),
            RawScene { extends: None, add: vec![], layers: Some(list(&["paint", "task-var"])) },
        ),
    ];
    let raw = RawConfig { default: list(&["status-bar", "task-var"]), scenes };
    Config::parse(&raw).unwrap()
}

fn hello(name: &str) -> Hello {
    Hello { hello: name.to_string(), session: None, rect: None }
}

fn join(shared: &mut Shared, config: &Config, id: u64, hello: Hello) -> bool {
    match shared.greet(config, id, hello) {
        Greeting::Joined { bound } => bound,
        Greeting::Status(_) => panic!("not a status query"),
    }
}

#[test]
fn last_scene_client_decides_and_leaving_restores() {
    let config = config();
    let mut shared = Shared::new();
    assert_eq!(shared.recompute(&config).scene, "default");
    join(&mut shared, &config, 1, hello("task-var"));
    assert_eq!(shared.recompute(&config).scene, "default");
    join(&mut shared, &config, 2, hello("ssbrowse"));
    join(&mut shared, &config, 3, hello("paint"));
    join(&mut shared, &config, 4, hello("task-var"));
    assert_eq!(current_scene(&shared.clients, &config), "paint");
    shared.leave(3);
    assert_eq!(shared.recompute(&config).scene, "ssbrowse");
    shared.leave(2);
    assert_eq!(shared.recompute(&config).scene, "default");
    assert_eq!(shared.clients.iter().map(|c| c.id).collect::<Vec<_>>(), vec![1, 4]);
    shared.leave(99);
    assert_eq!(shared.clients.len(), 2);
}

#[test]
fn a_client_named_default_is_no_scene() {
    let config = config();
    let mut shared = Shared::new();
    join(&mut shared, &config, 1, hello("paint"));
    join(&mut shared, &config, 2, hello("default"));
    assert_eq!(shared.recompute(&config).scene, "paint");
}

#[test]
fn broadcast_tells_every_client_and_the_status_line() {
    let config = config();
    let mut shared = Shared::new();
    join(&mut shared, &config, 1, hello("task-var"));
    join(&mut shared, &config, 2, hello("other"));
    let b = shared.recompute(&config);
    assert!(b.status_on);
    assert_eq!(b.messages.len(), 2);
    assert!(b.messages[0].visible);
    assert!(!b.messages[1].visible);
    assert_eq!(b.messages[1].scene.as_deref(), Some("default"));
    join(&mut shared, &config, 3, hello("paint"));
    let b = shared.recompute(&config);
    assert!(!b.status_on);
    assert!(b.messages.iter().all(|m| m.scene.as_deref() == Some("paint")));
    assert_eq!(b.messages.iter().map(|m| m.visible).collect::<Vec<_>>(), vec![true, false, true]);
}

#[test]
fn regions_can_be_redeclared_and_withdrawn() {
    let config = config();
    let mut shared = Shared::new();
    let region = |x, y, w, h| Some(Rect { x, y, w, h });
    let with = |name: &str, rect| Hello { hello: name.to_string(), session: None, rect };
    join(&mut shared, &config, 1, with("task-var", region(0, 0, 10, 10)));
    join(&mut shared, &config, 2, with("paint", region(20, 0, 10, 10)));
    assert!(shared.recompute(&config).messages[0].clip.is_empty());
    shared.redeclare(2, RectUpdate { rect: region(5, 5, 10, 10) });
    assert_eq!(
        shared.recompute(&config).messages[0].clip,
        vec![Rect { x: 5, y: 5, w: 5, h: 5 }]
    );
    shared.redeclare(2, RectUpdate { rect: None });
    assert!(shared.recompute(&config).messages[0].clip.is_empty());
    assert_eq!(shared.clients[0].rect, region(0, 0, 10, 10));
    assert_eq!(shared.clients[1].rect, None);
}

#[test]
fn status_query_is_answered_and_not_registered() {
    let config = config();
    let mut shared = Shared::new();
    join(&mut shared, &config, 1, hello("paint"));
    let bound = Hello {
        hello: "task-var".to_string(),
        session: Some("$3".to_string()),
        rect: Some(Rect { x: 0, y: 1070, w: 1920, h: 10 }),
    };
    assert!(join(&mut shared, &config, 2, bound));
    shared.observe(Some("$3".to_string()));
    match shared.greet(&config, 3, hello(STATUS_QUERY_NAME)) {
        Greeting::Status(reply) => {
            assert_eq!(reply.scene, "paint");
            assert_eq!(reply.clients, vec!["paint", "task-var (session $3) [1920x10+0+1070]"]);
            assert_eq!(reply.active_session.as_deref(), Some("$3"));
        }
        Greeting::Joined { .. } => panic!("a reply was expected"),
    }
    assert_eq!(shared.clients.len(), 2);
}

#[test]
fn session_is_followed_only_while_a_client_is_bound() {
    let config = config();
    let mut shared = Shared::new();
    join(&mut shared, &config, 1, hello("task-var"));
    assert!(shared.observe(Some("$0".to_string())));
    assert!(!shared.needs_session());
    assert_eq!(shared.active_session, None);
    let bound =
        Hello { hello: "task-var".to_string(), session: Some("$1".to_string()), rect: None };
    join(&mut shared, &config, 2, bound);
    assert!(shared.needs_session());
    assert!(shared.recompute(&config).messages[1].visible);
    assert!(shared.observe(Some("$0".to_string())));
    assert!(!shared.observe(Some("$0".to_string())));
    assert!(shared.needs_session());
    assert_eq!(shared.active_session.as_deref(), Some("$0"));
    let b = shared.recompute(&config);
    assert!(b.messages[0].visible);
    assert!(!b.messages[1].visible);
    assert_eq!(b.messages[1].reason.as_deref(), Some("session"));
    assert!(shared.observe(Some("$1".to_string())));
    assert!(shared.recompute(&config).messages[1].visible);
    assert!(shared.observe(None));
    assert!(!shared.observe(None));
}

#[test]
fn active_session_is_that_of_the_latest_client() {
    assert_eq!(query_active_session(""), None);
    assert_eq!(query_active_session("1700000000 $0\n").as_deref(), Some("$0"));
    assert_eq!(query_active_session("10 $0\n30 $2\n20 $1\n").as_deref(), Some("$2"));
    // Among equals the last one counts.
    assert_eq!(query_active_session("10 $0\n10 $1\r\n5 $2").as_deref(), Some("$1"));
    // Lines that cannot be read are passed over.
    let odd = "x $9\n\n-5 $8\n7\n +3 \u{3000}$4 rest\n18446744073709551616 $7\n";
    assert_eq!(query_active_session(odd).as_deref(), Some("$4"));
    assert_eq!(query_active_session("18446744073709551615 $7\n1 $0").as_deref(), Some("$7"));
    assert_eq!(query_active_session("+ $7\nno\n"), None);
    assert_eq!(listing_args(), vec!["list-clients", "-F", "#{client_activity} #{session_id}"]);
}

#[test]
fn socket_path_follows_the_environment() {
    assert_eq!(socket_path(Some("/s"), Some("/run")), "/s");
    assert_eq!(socket_path(Some(""), Some("/run/user/0")), "/run/user/0/fb-server.sock");
    assert_eq!(socket_path(None, Some("/run/")), "/run//fb-server.sock");
    assert_eq!(socket_path(None, Some("")), "/tmp/fb-server.sock");
    assert_eq!(socket_path(None, None), "/tmp/fb-server.sock");
}

#[test]
fn messages_are_framed_as_lines() {
    assert_eq!(frame("{\"visible\":true}".to_string()), "{\"visible\":true}\n");
    assert_eq!(frame(String::new()), "\n");
}

#[test]
fn a_connection_opens_registers_and_ends() {
    let config = config();
    let mut shared = Shared::new();
    join(&mut shared, &config, 1, hello("task-var"));
    let bound =
        Hello { hello: "paint".to_string(), session: Some("$1".to_string()), rect: None };
    let (phase, action) = shared.handle(&config, 7, Phase::Opening, Event::Hello(bound));
    assert_eq!(phase, Phase::Registered);
    assert!(matches!(action, Action::Publish { find_session: true }));
    assert_eq!(shared.recompute(&config).scene, "paint");
    let (phase, action) = shared.handle(&config, 7, phase, Event::Unreadable);
    assert_eq!(phase, Phase::Registered);
    assert!(matches!(action, Action::Rest));
    let update = RectUpdate { rect: Some(Rect { x: 1, y: 2, w: 3, h: 4 }) };
    let (phase, action) = shared.handle(&config, 7, phase, Event::Update(update));
    assert_eq!(phase, Phase::Registered);
    assert!(matches!(action, Action::Publish { find_session: false }));
    assert_eq!(shared.clients[1].rect, Some(Rect { x: 1, y: 2, w: 3, h: 4 }));
    let (phase, action) = shared.handle(&config, 7, phase, Event::Ended);
    assert_eq!(phase, Phase::Closed);
    assert!(matches!(action, Action::Publish { find_session: false }));
    assert_eq!(shared.recompute(&config).scene, "default");
    assert_eq!(shared.clients.len(), 1);
    let (phase, action) = shared.handle(&config, 7, phase, Event::Hello(hello("paint")));
    assert_eq!(phase, Phase::Closed);
    assert!(matches!(action, Action::Rest));
    assert_eq!(shared.clients.len(), 1);
}

#[test]
fn a_connection_without_a_hello_is_closed() {
    let config = config();
    let mut shared = Shared::new();
    for event in vec![Event::Ended, Event::Unreadable, Event::Update(RectUpdate { rect: None })] {
        let (phase, action) = shared.handle(&config, 1, Phase::Opening, event);
        assert_eq!(phase, Phase::Closed);
        assert!(matches!(action, Action::Rest));
    }
    let (phase, action) =
        shared.handle(&config, 2, Phase::Opening, Event::Hello(hello(STATUS_QUERY_NAME)));
    assert_eq!(phase, Phase::Closed);
    match action {
        Action::Reply(reply) => {
            assert_eq!(reply.scene, "default");
            assert!(reply.clients.is_empty());
            assert_eq!(reply.active_session, None);
        }
        _ => panic!("a reply was expected"),
    }
    assert!(shared.clients.is_empty());
}
