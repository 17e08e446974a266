use mpvremote::api::{
    api_command, api_info, api_open, command_reply, open_loaded, open_reply, open_resolved, Opening,
    Reply,
};
use mpvremote::browse::{
    api_browse, browse_directory, listing, requested_path, shows, Entry, Listed,
};
use mpvremote::json::{Json, Number};
use mpvremote::mpv::Status;
use mpvremote::ws::{client_step, greeting, ClientAction, ClientEvent};

fn s(text: &str) -> Json {
    Json::Str(text.to_string())
}

fn number(n: u64) -> Json {
    Json::Number(Number::PosInt(n))
}

fn object(name: &str, value: Json) -> Json {
    Json::Object(vec![(name.to_string(), value)])
}

fn render(json: &Json) -> String {
    match json {
        Json::Null => "null".to_string(),
        Json::Bool(b) => b.to_string(),
        Json::Number(Number::PosInt(n)) => n.to_string(),
        Json::Number(Number::NegInt(n)) => n.to_string(),
        Json::Number(Number::Float(bits)) => f64::from_bits(*bits).to_string(),
        Json::Str(text) => format!("{text:?}"),
        Json::Array(items) => {
            let all: Vec<String> = items.iter().map(render).collect();
            format!("[{}]", all.join(","))
        }
        Json::Object(members) => {
            let all: Vec<String> =
                members.iter().map(|(name, value)| format!("{name:?}:{}", render(value))).collect();
            format!("{{{}}}", all.join(","))
        }
    }
}

fn answer(reply: &Reply) -> (u16, String) {
    (reply.status, render(&reply.body))
}

fn says(status: u16, body: &str) -> (u16, String) {
    (status, body.to_string())
}

fn entry(name: &[u8], is_dir: bool) -> Entry {
    Entry { name: name.to_vec(), is_dir }
}

#[test]
fn an_allowed_command_is_passed_on() {
    let body = object("command", Json::Array(vec![s("seek"), number(10)]));
    assert_eq!(render(&api_command(&body).unwrap_or(Json::Null)), "[\"seek\",10]");
}

#[test]
fn a_forbidden_command_is_refused() {
    let body = object("command", Json::Array(vec![s("run"), s("sh")]));
    let reply = api_command(&body).err().unwrap();
    assert_eq!(answer(&reply), says(403, "{\"error\":\"command not allowed\"}"));
}

#[test]
fn a_request_without_a_command_is_refused() {
    for body in [Json::Null, object("cmd", Json::Array(vec![])), object("command", s("stop"))] {
        let reply = api_command(&body).err().unwrap();
        let expected = "{\"error\":\"expected {\\\"command\\\": [...]}\"}";
        assert_eq!(answer(&reply), says(400, expected));
    }
}

#[test]
fn of_two_members_the_later_counts() {
    let body = Json::Object(vec![
        ("command".to_string(), Json::Array(vec![s("run")])),
        ("command".to_string(), Json::Array(vec![s("stop")])),
    ]);
    assert_eq!(render(&api_command(&body).unwrap_or(Json::Null)), "[\"stop\"]");
}

#[test]
fn results_are_passed_back() {
    assert_eq!(answer(&command_reply(Ok(number(3)))), says(200, "{\"data\":3}"));
    let failed = command_reply(Err("mpv disconnected".to_string()));
    assert_eq!(answer(&failed), says(502, "{\"error\":\"mpv disconnected\"}"));
}

#[test]
fn an_address_is_opened() {
    match api_open(&object("target", s("https://example.org/v"))) {
        Opening::Load(command) => {
            assert_eq!(render(&command), "[\"loadfile\",\"https://example.org/v\",\"replace\"]");
        }
        _ => panic!("not loaded"),
    }
}

#[test]
fn a_local_path_is_opened_under_the_root_only() {
    match api_open(&object("target", s("/srv/../srv/a.mkv"))) {
        Opening::Resolve(target) => {
            assert_eq!(target, "/srv/../srv/a.mkv");
            let command = open_resolved(b"/srv", &target, Some(b"/srv/a.mkv".to_vec()));
            assert_eq!(
                render(&command.unwrap_or(Json::Null)),
                "[\"loadfile\",\"/srv/../srv/a.mkv\",\"replace\"]"
            );
            for outside in [None, Some(b"/etc/passwd".to_vec())] {
                let reply = open_resolved(b"/srv", &target, outside).err().unwrap();
                assert_eq!(answer(&reply), says(403, "{\"error\":\"path outside root\"}"));
            }
        }
        _ => panic!("not looked at"),
    }
}

#[test]
fn a_request_without_a_target_is_refused() {
    for body in [Json::Null, object("target", number(1))] {
        match api_open(&body) {
            Opening::Refuse(reply) => {
                let expected = "{\"error\":\"expected {\\\"target\\\": \\\"...\\\"}\"}";
                assert_eq!(answer(&reply), says(400, expected));
            }
            _ => panic!("not refused"),
        }
    }
}

#[test]
fn what_is_loaded_is_made_to_play() {
    let command = open_loaded(Ok(Json::Null)).unwrap_or(Json::Null);
    assert_eq!(render(&command), "[\"set_property\",\"pause\",false]");
    let reply = open_loaded(Err("loading failed".to_string())).err().unwrap();
    assert_eq!(answer(&reply), says(502, "{\"error\":\"loading failed\"}"));
    assert_eq!(answer(&open_reply(Ok(Json::Null))), says(200, "{\"data\":\"ok\"}"));
    assert_eq!(answer(&open_reply(Err("x".to_string()))), says(200, "{\"data\":\"ok\"}"));
}

#[test]
fn the_port_and_the_root_are_told() {
    let reply = api_info(8000, b"/srv").unwrap();
    assert_eq!(answer(&reply), says(200, "{\"port\":8000,\"root\":\"/srv\"}"));
    assert!(api_info(8000, b"/\xff").is_none());
}

#[test]
fn media_and_directories_are_shown() {
    for name in ["a.mkv", "A.MP4", "x.tar.flac", "b.M2ts", "mp3", "OPUS"] {
        assert!(shows(name, false), "{name}");
    }
    for name in ["a.txt", "a.mkv.part", "mkv.", "", ".mkv", ".hidden.mp3", "a.mkv "] {
        assert!(!shows(name, false), "{name}");
    }
    assert!(shows("music", true));
    assert!(shows("notes.txt", true));
    assert!(!shows(".config", true));
}

#[test]
fn a_directory_is_found_by_its_query() {
    assert_eq!(requested_path(b"/srv", None), b"/srv");
    assert_eq!(requested_path(b"/srv", Some("/srv/a")), b"/srv/a");
    assert_eq!(browse_directory(b"/srv", Some(b"/srv/a".to_vec())).ok(), Some(b"/srv/a".to_vec()));
    let reply = browse_directory(b"/srv", Some(b"/etc".to_vec())).err().unwrap();
    assert_eq!(answer(&reply), says(403, "{\"error\":\"path outside root\"}"));
    let reply = browse_directory(b"/srv", None).err().unwrap();
    assert_eq!(answer(&reply), says(403, "{\"error\":\"path outside root\"}"));
}

#[test]
fn a_directory_is_listed_in_order() {
    let entries = vec![
        entry(b"b.mkv", false),
        entry(b"notes.txt", false),
        entry(b"zoo", true),
        entry(b"B.mkv", false),
        entry(b".git", true),
        entry(b"art", true),
        entry(b"a.mp3", false),
    ];
    let reply = api_browse(b"/srv", b"/srv/m", Some(entries)).unwrap();
    assert_eq!(
        answer(&reply),
        says(
            200,
            "{\"path\":\"/srv/m\",\"parent\":\"/srv\",\"entries\":[\
             {\"name\":\"art\",\"is_dir\":true,\"path\":\"/srv/m/art\"},\
             {\"name\":\"zoo\",\"is_dir\":true,\"path\":\"/srv/m/zoo\"},\
             {\"name\":\"B.mkv\",\"is_dir\":false,\"path\":\"/srv/m/B.mkv\"},\
             {\"name\":\"a.mp3\",\"is_dir\":false,\"path\":\"/srv/m/a.mp3\"},\
             {\"name\":\"b.mkv\",\"is_dir\":false,\"path\":\"/srv/m/b.mkv\"}]}"
        )
    );
}

#[test]
fn the_root_offers_no_parent() {
    let reply = api_browse(b"/srv", b"/srv", Some(Vec::new())).unwrap();
    assert_eq!(answer(&reply), says(200, "{\"path\":\"/srv\",\"parent\":null,\"entries\":[]}"));
    let reply = api_browse(b"/srv/", b"/srv", Some(Vec::new())).unwrap();
    assert_eq!(answer(&reply), says(200, "{\"path\":\"/srv\",\"parent\":null,\"entries\":[]}"));
    let reply = api_browse(b"/", b"/", Some(vec![entry(b"a.ts", false)])).unwrap();
    assert!(render(&reply.body).contains("\"path\":\"/a.ts\""));
}

#[test]
fn an_unreadable_directory_is_reported() {
    let reply = api_browse(b"/srv", b"/srv/a", None).unwrap();
    assert_eq!(answer(&reply), says(404, "{\"error\":\"cannot read directory\"}"));
}

#[test]
fn names_that_are_not_utf8_have_no_answer() {
    assert!(api_browse(b"/srv", b"/srv", Some(vec![entry(b"\xff.mkv", false)])).is_none());
    assert!(api_browse(b"/srv", b"/srv/\xff", Some(Vec::new())).is_none());
    let hidden = vec![entry(b"\xff.txt", false), entry(b".\xff", true)];
    assert!(api_browse(b"/srv", b"/srv", Some(hidden)).is_some());
}

#[test]
fn entries_with_one_name_keep_their_order() {
    let listed = |name: &str, is_dir: bool, path: &str| Listed {
        name: name.to_string(),
        is_dir,
        path: path.to_string(),
    };
    let entries = vec![
        listed("same", false, "1"),
        listed("same", true, "2"),
        listed("other", false, "3"),
        listed("same", false, "4"),
        listed("sam", false, "5"),
    ];
    let reply = listing("/".to_string(), None, entries);
    let order: Vec<String> = match reply.body.get("entries") {
        Some(Json::Array(items)) => {
            items.iter().map(|i| i.get("path").unwrap().as_str().unwrap().to_string()).collect()
        }
        _ => panic!("no entries"),
    };
    assert_eq!(order, ["2", "3", "5", "1", "4"]);
}

#[test]
fn names_sort_as_texts_do() {
    let names = ["a", "B", "ab", "", "é", "z", "\u{ffff}", "\u{10000}", "a b", "A"];
    let entries: Vec<Listed> = names
        .iter()
        .map(|n| Listed { name: n.to_string(), is_dir: false, path: String::new() })
        .collect();
    let reply = listing(String::new(), None, entries);
    let listed: Vec<String> = match reply.body.get("entries") {
        Some(Json::Array(items)) => {
            items.iter().map(|i| i.get("name").unwrap().as_str().unwrap().to_string()).collect()
        }
        _ => panic!("no entries"),
    };
    let mut sorted = names.to_vec();
    sorted.sort();
    assert_eq!(listed, sorted);
}

#[test]
fn a_client_is_greeted_with_the_status() {
    let mut status = Status::new();
    assert_eq!(render(&greeting(&status)), "{\"status\":{}}");
    status.insert("volume".to_string(), number(90));
    assert_eq!(render(&greeting(&status)), "{\"status\":{\"volume\":90}}");
}

#[test]
fn a_client_is_sent_the_news_until_it_leaves() {
    match client_step(ClientEvent::Push(number(1))) {
        ClientAction::Send(message) => assert_eq!(render(&message), "1"),
        _ => panic!("not sent"),
    }
    assert!(matches!(client_step(ClientEvent::Lagged), ClientAction::Wait));
    assert!(matches!(client_step(ClientEvent::Received), ClientAction::Wait));
    assert!(matches!(client_step(ClientEvent::Sent(true)), ClientAction::Wait));
    assert!(matches!(client_step(ClientEvent::Sent(false)), ClientAction::Leave));
    assert!(matches!(client_step(ClientEvent::NoMore), ClientAction::Leave));
    assert!(matches!(client_step(ClientEvent::Gone), ClientAction::Leave));
}

#[test]
fn values_are_read_by_their_type() {
    let value = Json::Object(vec![("a".to_string(), number(7)), ("b".to_string(), s("x"))]);
    assert_eq!(value.get("a").unwrap().as_u64(), Some(7));
    assert_eq!(value.get("b").unwrap().as_str(), Some("x"));
    assert!(value.get("c").is_none());
    assert!(number(1).is_number() && !s("1").is_number());
    assert!(Json::Bool(true).is_boolean() && !Json::Null.is_boolean());
    assert_eq!(Json::Number(Number::NegInt(-1)).as_u64(), None);
    assert_eq!(Json::Number(Number::Float(1.0f64.to_bits())).as_u64(), None);
    assert_eq!(Json::Array(vec![Json::Null]).as_array().unwrap().len(), 1);
    assert_eq!(render(&value.clone()), "{\"a\":7,\"b\":\"x\"}");
}

#[test]
fn a_listed_path_is_found_again() {
    let reply = api_browse("/m\u{e9}".as_bytes(), "/m\u{e9}".as_bytes(), Some(vec![
        entry("\u{e9}t\u{e9}".as_bytes(), true),
    ]))
    .unwrap();
    let path = match reply.body.get("entries") {
        Some(Json::Array(items)) => items[0].get("path").unwrap().as_str().unwrap().to_string(),
        _ => panic!("no entries"),
    };
    assert_eq!(requested_path(b"/", Some(&path)), "/m\u{e9}/\u{e9}t\u{e9}".as_bytes());
}

#[test]
fn a_path_is_no_address() {
    for target in
        ["/etc/a://b", "a/b://c", "://x", "1a://x", "a:/b", "a b://c", "https:", "x:///", "", "\u{e9}://x"]
    {
        let is_path = target != "x:///";
        match api_open(&object("target", s(target))) {
            Opening::Resolve(_) => assert!(is_path, "{target}"),
            Opening::Load(_) => assert!(!is_path, "{target}"),
            Opening::Refuse(_) => panic!("refused"),
        }
    }
    let reply = open_resolved(b"/srv", "/etc/a://b", Some(b"/etc/a:/b".to_vec())).err().unwrap();
    assert_eq!(answer(&reply), says(403, "{\"error\":\"path outside root\"}"));
    for target in ["http://a", "ytdl://b", "a+b-c.d2://", "HTTPS://X"] {
        assert!(matches!(api_open(&object("target", s(target))), Opening::Load(_)), "{target}");
    }
}

#[test]
fn going_into_a_directory_leads_back() {
    for (root, dir, path) in
        [("/srv", "/srv", "/srv/m"), ("/", "/", "/m"), ("/", "/a/b", "/a/b/m"), ("/a", "/a/\u{e9}", "/a/\u{e9}/m")]
    {
        let reply = api_browse(root.as_bytes(), dir.as_bytes(), Some(vec![entry(b"m", true)]));
        let listed = match reply.unwrap().body.get("entries") {
            Some(Json::Array(items)) => items[0].get("path").unwrap().as_str().unwrap().to_string(),
            _ => panic!("no entries"),
        };
        assert_eq!(listed, path);
        let inner = requested_path(root.as_bytes(), Some(&listed));
        let inner = browse_directory(root.as_bytes(), Some(inner)).ok().unwrap();
        let reply = api_browse(root.as_bytes(), &inner, Some(Vec::new())).unwrap();
        assert_eq!(reply.status, 200);
        assert_eq!(reply.body.get("path").unwrap().as_str(), Some(path));
        assert_eq!(reply.body.get("parent").unwrap().as_str(), Some(dir));
    }
}

#[test]
fn names_in_utf8_are_listed_as_they_are() {
    let entries = vec![entry("\u{e9}t\u{e9}.mkv".as_bytes(), false)];
    let reply = api_browse(b"/srv", b"/srv", Some(entries)).unwrap();
    let expected = "{\"path\":\"/srv\",\"parent\":null,\"entries\":[{\"name\":\"\u{e9}t\u{e9}.mkv\",\
                    \"is_dir\":false,\"path\":\"/srv/\u{e9}t\u{e9}.mkv\"}]}";
    assert_eq!(answer(&reply), says(200, expected));
}
