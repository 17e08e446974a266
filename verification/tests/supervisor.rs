use mpvremote::json::Json;
use mpvremote::mpv::Status;
use mpvremote::supervisor::{connected_message, mpv_arguments, Duty, Outcome, Stage};

fn after(start: Stage, outcomes: &[Outcome]) -> Stage {
    outcomes.iter().fold(start, |stage, outcome| stage.next(*outcome))
}

#[test]
fn a_running_mpv_is_used() {
    assert_eq!(Stage::start().duty(), Duty::Connect);
    let stage = Stage::start().next(Outcome::Connected(true));
    assert_eq!(stage, Stage::Serving);
    assert_eq!(stage.duty(), Duty::Serve);
}

#[test]
fn mpv_is_started_once() {
    let stage = Stage::start().next(Outcome::Connected(false));
    assert_eq!(stage.duty(), Duty::Launch);
    let stage = stage.next(Outcome::Launched(true));
    assert_eq!(stage.duty(), Duty::Sleep(500));
    let stage = after(stage, &[Outcome::Woke, Outcome::Connected(false)]);
    assert_eq!(stage, Stage::Waiting { launched: true });
    let stage = after(stage, &[Outcome::Woke, Outcome::Connected(true)]);
    assert_eq!(stage, Stage::Serving);
}

#[test]
fn a_failed_start_is_tried_again() {
    let stage = after(
        Stage::start(),
        &[
            Outcome::Connected(false),
            Outcome::Launched(false),
            Outcome::Woke,
            Outcome::Connected(false),
        ],
    );
    assert_eq!(stage, Stage::Launching);
}

#[test]
fn a_dead_mpv_is_started_again() {
    let stage = Stage::Serving.next(Outcome::Lost);
    assert_eq!(stage.duty(), Duty::Sleep(1000));
    assert_eq!(after(stage, &[Outcome::Woke, Outcome::Connected(false)]), Stage::Launching);
    assert_eq!(after(stage, &[Outcome::Woke, Outcome::Connected(true)]), Stage::Serving);
}

#[test]
fn a_stray_outcome_changes_nothing() {
    assert_eq!(Stage::Serving.next(Outcome::Woke), Stage::Serving);
    assert_eq!(Stage::Launching.next(Outcome::Lost), Stage::Launching);
}

#[test]
fn mpv_is_idle_and_has_a_socket() {
    assert_eq!(mpv_arguments("/tmp/x"), ["--idle=yes", "--input-ipc-server=/tmp/x"]);
}

#[test]
fn clients_are_told_about_the_connection() {
    let message = connected_message(true);
    assert!(matches!(message.get("connected"), Some(Json::Bool(true))));
    let message = connected_message(false);
    assert!(matches!(message.get("connected"), Some(Json::Bool(false))));
}

#[test]
fn an_mpv_that_dies_before_it_is_connected_is_started_again() {
    let waiting = Stage::Waiting { launched: true };
    assert_eq!(waiting.next(Outcome::Died), Stage::Waiting { launched: false });
    let stage = after(waiting, &[Outcome::Died, Outcome::Woke, Outcome::Connected(false)]);
    assert_eq!(stage, Stage::Launching);
    let connecting = Stage::Connecting { launched: true };
    let stage = after(connecting, &[Outcome::Died, Outcome::Connected(false)]);
    assert_eq!(stage, Stage::Launching);
    assert_eq!(Stage::Serving.next(Outcome::Died), Stage::Serving);
    assert_eq!(Stage::Resting.next(Outcome::Died), Stage::Resting);
}

#[test]
fn announcements_alternate_and_a_loss_empties_the_status() {
    let mut status = Status::new();
    let mut stage = Stage::start();
    let mut heard = Vec::new();
    for outcome in [
        Outcome::Connected(false),
        Outcome::Launched(true),
        Outcome::Woke,
        Outcome::Connected(true),
        Outcome::Lost,
        Outcome::Woke,
        Outcome::Connected(true),
        Outcome::Lost,
    ] {
        stage = stage.next(outcome);
        if let Some(message) = stage.enter(&mut status) {
            heard.push(matches!(message.get("connected"), Some(Json::Bool(true))));
            assert!(matches!(status.to_json(), Json::Object(members) if members.is_empty()));
        }
        if stage == Stage::Serving {
            status.insert("pause".to_string(), Json::Bool(true));
        }
    }
    assert_eq!(heard, [true, false, true, false]);
}
