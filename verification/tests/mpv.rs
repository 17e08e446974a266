use mpvremote::json::{Json, Number};
use mpvremote::mpv::{
    command_result, observe_messages, write_line, Action, Connection, Delivery, Event, Status,
    TIME_POS_PAUSE,
};

const SECOND: u64 = 1_000_000_000;

fn s(text: &str) -> Json {
    Json::Str(text.to_string())
}

fn number(n: u64) -> Json {
    Json::Number(Number::PosInt(n))
}

fn object(members: &[(&str, Json)]) -> Json {
    Json::Object(members.iter().map(|(name, value)| (name.to_string(), value.clone())).collect())
}

fn show(json: &Json) -> String {
    match json {
        Json::Null => "null".to_string(),
        Json::Bool(b) => b.to_string(),
        Json::Number(Number::PosInt(n)) => n.to_string(),
        Json::Number(Number::NegInt(n)) => n.to_string(),
        Json::Number(Number::Float(bits)) => f64::from_bits(*bits).to_string(),
        Json::Str(text) => format!("{text:?}"),
        Json::Array(items) => {
            let shown: Vec<String> = items.iter().map(show).collect();
            format!("[{}]", shown.join(","))
        }
        Json::Object(members) => {
            let shown: Vec<String> =
                members.iter().map(|(name, value)| format!("{name:?}:{}", show(value))).collect();
            format!("{{{}}}", shown.join(","))
        }
    }
}

/// A connection on which every property has been asked for.
fn opened(status: &mut Status) -> Connection<u8> {
    let (mut conn, _) = Connection::open();
    for _ in 0..11 {
        conn.step(status, Event::Wrote(true), 0);
    }
    conn
}

fn change(name: &str, data: Json) -> Event<u8> {
    let message = object(&[("event", s("property-change")), ("name", s(name)), ("data", data)]);
    Event::Line(Some(message))
}

#[test]
fn every_property_is_asked_for() {
    let names = [
        "pause", "time-pos", "duration", "volume", "mute", "speed", "media-title", "path",
        "track-list", "idle-active", "fullscreen",
    ];
    let messages = observe_messages();
    assert_eq!(messages.len(), names.len());
    let mut status = Status::new();
    let (mut conn, first): (Connection<u8>, Json) = Connection::open();
    let mut sent = vec![show(&first)];
    loop {
        match conn.step(&mut status, Event::Wrote(true), 0) {
            Action::Write(message) => sent.push(show(&message)),
            action => {
                assert!(matches!(action, Action::Wait));
                break;
            }
        }
    }
    for (i, name) in names.iter().enumerate() {
        let expected = format!("{{\"command\":[\"observe_property\",0,{name:?}]}}");
        assert_eq!(show(&messages[i]), expected);
        assert_eq!(sent[i], expected);
    }
    assert_eq!(sent.len(), names.len());
}

#[test]
fn a_connection_that_cannot_be_asked_is_given_up() {
    let mut status = Status::new();
    let (mut conn, _): (Connection<u8>, Json) = Connection::open();
    assert!(matches!(conn.step(&mut status, Event::Wrote(true), 0), Action::Write(_)));
    assert!(matches!(conn.step(&mut status, Event::Wrote(false), 0), Action::Stop));
}

#[test]
fn a_message_is_a_line() {
    assert_eq!(write_line(b"{}".to_vec()), b"{}\n");
    assert_eq!(write_line(Vec::new()), b"\n");
}

#[test]
fn commands_are_numbered_and_answered() {
    let mut status = Status::new();
    let mut conn = opened(&mut status);
    assert!(conn.can_send());
    for (reply, id) in [(7u8, 1u64), (8, 2)] {
        let cmd = Json::Array(vec![s("stop")]);
        match conn.step(&mut status, Event::Command { cmd, reply }, 0) {
            Action::Write(message) => {
                let expected = format!("{{\"command\":[\"stop\"],\"request_id\":{id}}}");
                assert_eq!(show(&message), expected);
            }
            _ => panic!("not written"),
        }
        assert!(matches!(conn.step(&mut status, Event::Wrote(true), 0), Action::Wait));
    }
    let second = object(&[("request_id", number(2)), ("error", s("success")), ("data", number(5))]);
    match conn.step(&mut status, Event::Line(Some(second.clone())), 0) {
        Action::Answer { reply, result } => {
            assert_eq!(reply, 8);
            assert_eq!(show(&result.unwrap()), "5");
        }
        _ => panic!("not answered"),
    }
    assert!(matches!(conn.step(&mut status, Event::Line(Some(second)), 0), Action::Wait));
    let first = object(&[("request_id", number(1)), ("error", s("invalid parameter"))]);
    match conn.step(&mut status, Event::Line(Some(first)), 0) {
        Action::Answer { reply, result } => {
            assert_eq!(reply, 7);
            assert_eq!(result.unwrap_err(), "invalid parameter");
        }
        _ => panic!("not answered"),
    }
}

#[test]
fn responses_may_lack_what_is_expected() {
    for (response, expected) in [
        (object(&[("request_id", number(1)), ("error", s("success"))]), Ok("null")),
        (object(&[("request_id", number(1))]), Err("unknown")),
        (object(&[("request_id", number(1)), ("error", number(3))]), Err("unknown")),
    ] {
        let mut status = Status::new();
        let mut conn = opened(&mut status);
        conn.step(&mut status, Event::Command { cmd: Json::Null, reply: 1 }, 0);
        conn.step(&mut status, Event::Wrote(true), 0);
        match conn.step(&mut status, Event::Line(Some(response)), 0) {
            Action::Answer { result, .. } => match (result, expected) {
                (Ok(data), Ok(text)) => assert_eq!(show(&data), text),
                (Err(e), Err(text)) => assert_eq!(e, text),
                _ => panic!("wrong result"),
            },
            _ => panic!("not answered"),
        }
    }
}

#[test]
fn a_command_that_cannot_be_written_fails() {
    let mut status = Status::new();
    let mut conn = opened(&mut status);
    conn.step(&mut status, Event::Command { cmd: Json::Null, reply: 9 }, 0);
    match conn.step(&mut status, Event::Wrote(false), 0) {
        Action::Fail { reply, result } => {
            assert_eq!(reply, 9);
            assert_eq!(result.unwrap_err(), "mpv write failed");
        }
        _ => panic!("did not fail"),
    }
}

#[test]
fn the_end_of_either_side_ends_the_connection() {
    let mut status = Status::new();
    let mut conn = opened(&mut status);
    assert!(matches!(conn.step(&mut status, Event::Eof, 0), Action::Stop));
    assert!(matches!(conn.step(&mut status, Event::Closed, 0), Action::Stop));
}

#[test]
fn changes_are_recorded_and_published() {
    let mut status = Status::new();
    let mut conn = opened(&mut status);
    match conn.step(&mut status, change("volume", number(90)), 0) {
        Action::Publish(message) => assert_eq!(show(&message), "{\"volume\":90}"),
        _ => panic!("not published"),
    }
    conn.step(&mut status, change("pause", Json::Bool(true)), 0);
    conn.step(&mut status, change("volume", number(50)), 0);
    assert_eq!(show(&status.to_json()), "{\"volume\":50,\"pause\":true}");
    status.clear();
    assert_eq!(show(&status.to_json()), "{}");
}

#[test]
fn a_change_may_lack_its_name_or_data() {
    let mut status = Status::new();
    let mut conn = opened(&mut status);
    let message = object(&[("event", s("property-change"))]);
    match conn.step(&mut status, Event::Line(Some(message)), 0) {
        Action::Publish(message) => assert_eq!(show(&message), "{\"\":null}"),
        _ => panic!("not published"),
    }
}

#[test]
fn other_lines_are_passed_over() {
    let mut status = Status::new();
    let mut conn = opened(&mut status);
    assert!(matches!(conn.step(&mut status, Event::Line(None), 0), Action::Wait));
    for line in [
        Json::Null,
        object(&[("event", s("idle"))]),
        object(&[("event", number(1))]),
        object(&[("request_id", number(99)), ("event", s("property-change")), ("name", s("mute"))]),
    ] {
        assert!(matches!(conn.step(&mut status, Event::Line(Some(line)), 0), Action::Wait));
    }
    assert_eq!(show(&status.to_json()), "{}");
    let signed = object(&[
        ("request_id", Json::Number(Number::NegInt(-1))),
        ("event", s("property-change")),
        ("name", s("mute")),
    ]);
    let action = conn.step(&mut status, Event::Line(Some(signed)), 0);
    assert!(matches!(action, Action::Publish(_)));
}

#[test]
fn positions_come_twice_a_second() {
    assert_eq!(TIME_POS_PAUSE, SECOND / 2);
    let mut status = Status::new();
    let mut conn = opened(&mut status);
    let mut published = Vec::new();
    for frame in 0..60u64 {
        let now = 5 * SECOND + frame * (SECOND / 24);
        if let Action::Publish(_) = conn.step(&mut status, change("time-pos", number(frame)), now) {
            published.push(frame);
        }
    }
    assert_eq!(published, [0, 13, 26, 39, 52]);
    assert_eq!(show(&status.to_json()), "{\"time-pos\":59}");
    let mut conn = opened(&mut status);
    let at = |conn: &mut Connection<u8>, status: &mut Status, now: u64| {
        matches!(conn.step(status, change("time-pos", Json::Null), now), Action::Publish(_))
    };
    assert!(at(&mut conn, &mut status, 0));
    assert!(!at(&mut conn, &mut status, 499_999_999));
    assert!(at(&mut conn, &mut status, 500_000_000));
}

#[test]
fn a_sender_learns_what_became_of_its_command() {
    assert_eq!(command_result(Delivery::Refused).unwrap_err(), "mpv actor gone");
    assert_eq!(command_result(Delivery::Dropped).unwrap_err(), "mpv disconnected");
    let answered = Delivery::Answered(Err("no".to_string()));
    assert_eq!(command_result(answered).unwrap_err(), "no");
    let answered = Delivery::Answered(Ok(number(3)));
    assert_eq!(show(&command_result(answered).unwrap()), "3");
}

#[test]
fn ids_are_not_used_twice() {
    let mut status = Status::new();
    let mut conn = opened(&mut status);
    let mut ids = Vec::new();
    for reply in 0..3u8 {
        if let Action::Write(message) =
            conn.step(&mut status, Event::Command { cmd: Json::Null, reply }, 0)
        {
            ids.push(message.get("request_id").unwrap().as_u64().unwrap());
        }
        conn.step(&mut status, Event::Wrote(true), 0);
        let response = object(&[("request_id", number(1)), ("error", s("success"))]);
        let answered = conn.step(&mut status, Event::Line(Some(response)), 0);
        assert_eq!(matches!(answered, Action::Answer { .. }), reply == 0);
    }
    assert_eq!(ids, [1, 2, 3]);
}

#[test]
fn who_follows_the_news_knows_the_status() {
    let mut status = Status::new();
    let mut conn = opened(&mut status);
    let mut known: Vec<(String, String)> = Vec::new();
    for (i, name) in ["volume", "pause", "time-pos", "time-pos", "volume"].iter().enumerate() {
        let event = change(name, number(i as u64));
        if let Action::Publish(Json::Object(members)) = conn.step(&mut status, event, i as u64) {
            for (name, value) in members {
                known.retain(|(n, _)| *n != name);
                known.push((name, show(&value)));
            }
        }
    }
    for (name, value) in &known {
        let current = show(status.to_json().get(name).unwrap());
        if name == "time-pos" {
            assert_eq!((value.as_str(), current.as_str()), ("2", "3"));
        } else {
            assert_eq!(*value, current);
        }
    }
    assert_eq!(known.len(), 3);
}
