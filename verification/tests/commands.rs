use mpvremote::commands::command_allowed;
use mpvremote::json::{Json, Number};

fn s(text: &str) -> Json {
    Json::Str(text.to_string())
}

fn n(value: i64) -> Json {
    if value < 0 {
        Json::Number(Number::NegInt(value))
    } else {
        Json::Number(Number::PosInt(value as u64))
    }
}

fn f(value: f64) -> Json {
    Json::Number(Number::Float(value.to_bits()))
}

#[test]
fn rejects_code_execution_and_other_dangerous_commands() {
    for cmd in [
        vec![s("run"), s("/bin/sh"), s("-c"), s("id")],
        vec![s("load-script"), s("/tmp/evil.lua")],
        vec![s("subprocess"), s("sh")],
        vec![s("set_property"), s("stream-open-filename"), s("/etc/passwd")],
        vec![s("set_property"), s("screenshot-directory"), s("/etc")],
        vec![s("screenshot-to-file"), s("/etc/x.png")],
        vec![s("quit")],
        vec![s("set"), s("script-opts"), s("x")],
        vec![s("loadfile"), s("/etc/passwd")],
        vec![],
        vec![s("cycle"), s("sub-visibility")], // not one of the three switches
        vec![s("seek"), s("10; run sh")],      // not a number
        vec![s("set_property"), s("volume"), s("loud")],
        vec![s("set_property"), s("pause"), n(1)], // must be a real boolean
    ] {
        assert!(!command_allowed(&cmd), "should have been rejected: {cmd:?}");
    }
}

#[test]
fn accepts_exactly_what_the_ui_sends() {
    for cmd in [
        vec![s("cycle"), s("pause")],
        vec![s("cycle"), s("mute")],
        vec![s("cycle"), s("fullscreen")],
        vec![s("stop")],
        vec![s("seek"), n(10)],
        vec![s("seek"), n(-10)],
        vec![s("seek"), f(30.5), s("absolute")],
        vec![s("set_property"), s("volume"), n(90)],
        vec![s("set_property"), s("speed"), f(1.25)],
        vec![s("set_property"), s("aid"), n(1)],
        vec![s("set_property"), s("sid"), s("no")],
        vec![s("set_property"), s("pause"), Json::Bool(false)],
        vec![s("set_property"), s("fullscreen"), Json::Bool(true)],
    ] {
        assert!(command_allowed(&cmd), "should have been allowed: {cmd:?}");
    }
}

#[test]
fn arguments_are_counted() {
    assert!(!command_allowed(&[s("stop"), n(1)]));
    assert!(!command_allowed(&[s("cycle")]));
    assert!(!command_allowed(&[s("cycle"), s("pause"), s("up")]));
    assert!(!command_allowed(&[s("cycle"), s("pause"), s("run"), s("/bin/sh")]));
    assert!(!command_allowed(&[s("seek")]));
    assert!(command_allowed(&[s("seek"), n(1), s("relative")]));
    assert!(!command_allowed(&[s("seek"), n(1), s("keyframes")]));
    assert!(!command_allowed(&[s("seek"), n(1), s("absolute"), s("exact")]));
    assert!(!command_allowed(&[s("seek"), n(1), Json::Null]));
    assert!(!command_allowed(&[s("seek"), n(10), n(5)]));
    assert!(!command_allowed(&[s("set_property"), s("volume")]));
    assert!(!command_allowed(&[s("set_property"), s("volume"), n(1), n(2)]));
}

#[test]
fn values_fit_their_property() {
    assert!(!command_allowed(&[s("set_property"), s("speed"), Json::Bool(true)]));
    assert!(command_allowed(&[s("set_property"), s("aid"), s("no")]));
    assert!(!command_allowed(&[s("set_property"), s("aid"), s("yes")]));
    assert!(!command_allowed(&[s("set_property"), s("mute"), s("yes")]));
    assert!(command_allowed(&[s("set_property"), s("mute"), Json::Bool(true)]));
    assert!(!command_allowed(&[s("set_property"), s("path"), s("no")]));
    assert!(!command_allowed(&[n(1), s("pause")]));
}
