//! Keeping a connection to mpv: connecting, starting mpv, and starting over.

use vstd::prelude::*;

use crate::json::{object1, one_member, Json, JsonView};
use crate::mpv::Status;
use crate::text::texts;

verus! {

/// What the program that keeps a connection to mpv open is doing.
#[derive(Clone, Copy, PartialEq, Eq, Structural, Debug)]
pub enum Stage {
    /// Trying to connect. `launched` says whether an mpv that was started for this is
    /// still alive.
    Connecting { launched: bool },
    /// Starting mpv.
    Launching,
    /// Waiting before the next try.
    Waiting { launched: bool },
    /// Serving the connection.
    Serving,
    /// Recovering from a lost connection.
    Resting,
}

/// What happens to it.
#[derive(Clone, Copy, PartialEq, Eq, Structural, Debug)]
pub enum Outcome {
    /// Connecting worked, or did not.
    Connected(bool),
    /// Starting mpv worked, or did not.
    Launched(bool),
    /// The mpv that was started has ended.
    Died,
    /// The wait is over.
    Woke,
    /// The connection is gone.
    Lost,
}

/// What it has to do.
#[derive(Clone, Copy, PartialEq, Eq, Structural, Debug)]
pub enum Duty {
    /// Connect to the socket.
    Connect,
    /// Start mpv.
    Launch,
    /// Wait this many milliseconds.
    Sleep(u64),
    /// Serve the connection.
    Serve,
}

/// What follows a stage. An outcome that does not belong to the stage changes nothing.
pub open spec fn next_stage(stage: Stage, outcome: Outcome) -> Stage {
    match (stage, outcome) {
        (Stage::Connecting { .. }, Outcome::Connected(true)) => Stage::Serving,
        (Stage::Connecting { launched }, Outcome::Connected(false)) => if launched {
            Stage::Waiting { launched: true }
        } else {
            Stage::Launching
        },
        (Stage::Connecting { .. }, Outcome::Died) => Stage::Connecting { launched: false },
        (Stage::Launching, Outcome::Launched(ok)) => Stage::Waiting { launched: ok },
        (Stage::Waiting { launched }, Outcome::Woke) => Stage::Connecting { launched },
        (Stage::Waiting { .. }, Outcome::Died) => Stage::Waiting { launched: false },
        (Stage::Serving, Outcome::Lost) => Stage::Resting,
        (Stage::Resting, Outcome::Woke) => Stage::Connecting { launched: false },
        _ => stage,
    }
}

/// What there is to do in a stage.
pub open spec fn stage_duty(stage: Stage) -> Duty {
    match stage {
        Stage::Connecting { .. } => Duty::Connect,
        Stage::Launching => Duty::Launch,
        Stage::Waiting { .. } => Duty::Sleep(500),
        Stage::Serving => Duty::Serve,
        Stage::Resting => Duty::Sleep(1000),
    }
}

/// What the clients are told about the connection when a stage begins.
pub open spec fn announcement(stage: Stage) -> Option<bool> {
    match stage {
        Stage::Serving => Some(true),
        Stage::Resting => Some(false),
        _ => None,
    }
}

/// What is known of mpv when a stage begins: nothing is left after a lost connection.
pub open spec fn known_at_start(
    stage: Stage,
    known: Map<Seq<char>, JsonView>,
) -> Map<Seq<char>, JsonView> {
    if stage == Stage::Resting {
        Map::empty()
    } else {
        known
    }
}

/// The message that tells the clients about the connection.
pub open spec fn connected_json(connected: bool) -> JsonView {
    object1("connected"@, JsonView::Bool(connected))
}

/// What the clients are told when the connection to mpv is made or lost.
pub fn connected_message(connected: bool) -> (r: Json)
    ensures
        r@ == connected_json(connected),
{
    one_member("connected", Json::Bool(connected))
}

impl Stage {
    /// Where it begins.
    pub fn start() -> (r: Stage)
        ensures
            r == (Stage::Connecting { launched: false }),
    {
        Stage::Connecting { launched: false }
    }

    /// What follows a stage: mpv is started if there is no socket and none that was
    /// started is alive, connecting is tried until it works, and after a loss everything
    /// begins anew.
    pub fn next(self, outcome: Outcome) -> (r: Stage)
        ensures
            r == next_stage(self, outcome),
    {
        match (self, outcome) {
            (Stage::Connecting { .. }, Outcome::Connected(true)) => Stage::Serving,
            (Stage::Connecting { launched }, Outcome::Connected(false)) => if launched {
                Stage::Waiting { launched: true }
            } else {
                Stage::Launching
            },
            (Stage::Connecting { .. }, Outcome::Died) => Stage::Connecting { launched: false },
            (Stage::Launching, Outcome::Launched(ok)) => Stage::Waiting { launched: ok },
            (Stage::Waiting { launched }, Outcome::Woke) => Stage::Connecting { launched },
            (Stage::Waiting { .. }, Outcome::Died) => Stage::Waiting { launched: false },
            (Stage::Serving, Outcome::Lost) => Stage::Resting,
            (Stage::Resting, Outcome::Woke) => Stage::Connecting { launched: false },
            _ => self,
        }
    }

    /// What there is to do in a stage.
    pub fn duty(self) -> (r: Duty)
        ensures
            r == stage_duty(self),
    {
        match self {
            Stage::Connecting { .. } => Duty::Connect,
            Stage::Launching => Duty::Launch,
            Stage::Waiting { .. } => Duty::Sleep(500),
            Stage::Serving => Duty::Serve,
            Stage::Resting => Duty::Sleep(1000),
        }
    }

    /// Begins a stage, before its duty: forgets what a lost mpv reported, and gives the
    /// message for the clients, if there is one.
    pub fn enter(self, status: &mut Status) -> (r: Option<Json>)
        ensures
            final(status)@ == known_at_start(self, old(status)@),
            match announcement(self) {
                Some(connected) => r matches Some(message) && message@ == connected_json(
                    connected,
                ),
                None => r is None,
            },
    {
        match self {
            Stage::Serving => Some(connected_message(true)),
            Stage::Resting => {
                status.clear();
                Some(connected_message(false))
            },
            _ => None,
        }
    }
}

/// How mpv is started: idle, with its socket at the given path.
pub fn mpv_arguments(socket: &str) -> (r: Vec<String>)
    ensures
        texts(r@) == seq!["--idle=yes"@, "--input-ipc-server="@ + socket@],
{
    let mut out: Vec<String> = Vec::new();
    out.push("--idle=yes".to_owned());
    let server: String = "--input-ipc-server=".to_owned();
    out.push(server.concat(socket));
    assert(texts(out@) == seq!["--idle=yes"@, "--input-ipc-server="@ + socket@]);
    out
}

/// Whether an outcome is one that the duty of a stage can have.
pub open spec fn belongs(stage: Stage, outcome: Outcome) -> bool {
    match stage_duty(stage) {
        Duty::Connect => outcome is Connected,
        Duty::Launch => outcome is Launched,
        Duty::Sleep(_) => outcome is Woke,
        Duty::Serve => outcome is Lost,
    }
}

/// It never comes to rest: whatever the outcome of a duty, another stage follows.
pub proof fn law_no_stage_is_the_last(stage: Stage, outcome: Outcome)
    requires
        belongs(stage, outcome),
    ensures
        next_stage(stage, outcome) != stage,
{
}

/// The stage after the outcomes, one after another.
pub open spec fn stage_after(stage: Stage, outcomes: Seq<Outcome>) -> Stage
    decreases outcomes.len(),
{
    if outcomes.len() == 0 {
        stage
    } else {
        next_stage(stage_after(stage, outcomes.drop_last()), outcomes.last())
    }
}

/// Once mpv was started, it is not started again until it has ended, or a connection was
/// made and lost.
pub proof fn law_mpv_is_launched_once(outcomes: Seq<Outcome>)
    requires
        forall|k: int|
            0 <= k < outcomes.len() ==> #[trigger] outcomes[k] != Outcome::Lost && outcomes[k]
                != Outcome::Died,
    ensures
        stage_after(Stage::Waiting { launched: true }, outcomes) != Stage::Launching,
        stage_after(Stage::Waiting { launched: true }, outcomes) != (Stage::Connecting {
            launched: false,
        }),
        stage_after(Stage::Waiting { launched: true }, outcomes) != (Stage::Waiting {
            launched: false,
        }),
        stage_after(Stage::Waiting { launched: true }, outcomes) != Stage::Resting,
    decreases outcomes.len(),
{
    if outcomes.len() > 0 {
        assert forall|k: int| 0 <= k < outcomes.drop_last().len() implies
            #[trigger] outcomes.drop_last()[k] != Outcome::Lost && outcomes.drop_last()[k]
            != Outcome::Died by {
            assert(outcomes.drop_last()[k] == outcomes[k]);
        }
        law_mpv_is_launched_once(outcomes.drop_last());
        assert(outcomes.last() == outcomes[outcomes.len() - 1]);
    }
}

/// If a served mpv dies, the connection to it is lost, and mpv is started again unless
/// its socket is back by then.
pub proof fn law_mpv_is_relaunched(back: bool)
    ensures
        stage_after(
            Stage::Serving,
            seq![Outcome::Lost, Outcome::Woke, Outcome::Connected(back)],
        ) == if back {
            Stage::Serving
        } else {
            Stage::Launching
        },
{
    reveal_with_fuel(stage_after, 4);
    let all = seq![Outcome::Lost, Outcome::Woke, Outcome::Connected(back)];
    assert(all.drop_last() == seq![Outcome::Lost, Outcome::Woke]);
    assert(seq![Outcome::Lost, Outcome::Woke].drop_last() == seq![Outcome::Lost]);
    assert(seq![Outcome::Lost].drop_last() == Seq::<Outcome>::empty());
}

/// If an mpv that was started dies before it is connected to, mpv is started again unless
/// somebody else's socket is there by then.
pub proof fn law_dead_child_is_relaunched(launched: bool, back: bool)
    ensures
        stage_after(
            Stage::Waiting { launched },
            seq![Outcome::Died, Outcome::Woke, Outcome::Connected(back)],
        ) == if back {
            Stage::Serving
        } else {
            Stage::Launching
        },
        stage_after(
            Stage::Connecting { launched },
            seq![Outcome::Died, Outcome::Connected(back)],
        ) == if back {
            Stage::Serving
        } else {
            Stage::Launching
        },
{
    reveal_with_fuel(stage_after, 4);
    let all = seq![Outcome::Died, Outcome::Woke, Outcome::Connected(back)];
    assert(all.drop_last() == seq![Outcome::Died, Outcome::Woke]);
    assert(seq![Outcome::Died, Outcome::Woke].drop_last() == seq![Outcome::Died]);
    assert(seq![Outcome::Died].drop_last() == Seq::<Outcome>::empty());
    assert(seq![Outcome::Died, Outcome::Connected(back)].drop_last() == seq![Outcome::Died]);
}

/// What happens over time, from the start.
pub enum Happening {
    /// The current stage takes an outcome.
    Turn(Outcome),
    /// The connection takes up a change of a property, and passes it on to the clients or
    /// holds it back.
    Change { name: Seq<char>, data: JsonView, passed_on: bool },
}

/// The stage after all that has happened.
pub open spec fn stage_now(history: Seq<Happening>) -> Stage
    decreases history.len(),
{
    if history.len() == 0 {
        Stage::Connecting { launched: false }
    } else {
        let before = stage_now(history.drop_last());
        match history.last() {
            Happening::Turn(outcome) => next_stage(before, outcome),
            Happening::Change { .. } => before,
        }
    }
}

/// Whether a history can be: changes come while the connection is served, since no other
/// stage reads from mpv.
pub open spec fn possible(history: Seq<Happening>) -> bool {
    forall|i: int|
        0 <= i < history.len() && (#[trigger] history[i]) is Change ==> stage_now(
            history.take(i),
        ) == Stage::Serving
}

/// A message to the clients.
pub enum Message {
    /// The connection to mpv is made, or lost.
    Connected(bool),
    /// A property has changed.
    News(JsonView),
}

/// What the last happening makes the clients hear.
pub open spec fn last_message(history: Seq<Happening>) -> Option<Message> {
    match history.last() {
        Happening::Turn(_) => if stage_now(history) == stage_now(history.drop_last()) {
            None
        } else {
            match announcement(stage_now(history)) {
                Some(connected) => Some(Message::Connected(connected)),
                None => None,
            }
        },
        Happening::Change { name, data, passed_on } => if passed_on {
            Some(Message::News(object1(name, data)))
        } else {
            None
        },
    }
}

/// All that the clients have heard: what is told when a stage begins, and the changes that
/// are passed on.
pub open spec fn messages(history: Seq<Happening>) -> Seq<Message>
    decreases history.len(),
{
    if history.len() == 0 {
        Seq::empty()
    } else {
        match last_message(history) {
            Some(message) => messages(history.drop_last()).push(message),
            None => messages(history.drop_last()),
        }
    }
}

/// What is known of mpv after all that has happened.
pub open spec fn known(history: Seq<Happening>) -> Map<Seq<char>, JsonView>
    decreases history.len(),
{
    if history.len() == 0 {
        Map::empty()
    } else {
        let before = known(history.drop_last());
        match history.last() {
            Happening::Turn(_) => if stage_now(history) == stage_now(history.drop_last()) {
                before
            } else {
                known_at_start(stage_now(history), before)
            },
            Happening::Change { name, data, .. } => before.insert(name, data),
        }
    }
}

/// Whether the last message about the connection says that it is there.
pub open spec fn live(heard: Seq<Message>) -> bool
    decreases heard.len(),
{
    heard.len() > 0 && match heard.last() {
        Message::Connected(connected) => connected,
        Message::News(_) => live(heard.drop_last()),
    }
}

/// The messages about the connection among those heard.
pub open spec fn announced(heard: Seq<Message>) -> Seq<bool>
    decreases heard.len(),
{
    if heard.len() == 0 {
        Seq::empty()
    } else {
        match heard.last() {
            Message::Connected(connected) => announced(heard.drop_last()).push(connected),
            Message::News(_) => announced(heard.drop_last()),
        }
    }
}

/// A history without its last happening can be if the whole can.
proof fn lemma_possible_before(history: Seq<Happening>)
    requires
        possible(history),
        history.len() > 0,
    ensures
        possible(history.drop_last()),
        history.last() is Change ==> stage_now(history.drop_last()) == Stage::Serving,
{
    let before = history.drop_last();
    assert forall|i: int| 0 <= i < before.len() && (#[trigger] before[i]) is Change implies
        stage_now(before.take(i)) == Stage::Serving by {
        assert(before[i] == history[i]);
        assert(before.take(i) == history.take(i));
    }
    assert(history.take(history.len() - 1) == before);
    assert(history.last() == history[history.len() - 1]);
}

/// The clients know whether there is a connection: the last message about it says that it
/// is there exactly while it is served.
pub proof fn law_clients_know_the_connection(history: Seq<Happening>)
    requires
        possible(history),
    ensures
        live(messages(history)) == (stage_now(history) == Stage::Serving),
    decreases history.len(),
{
    if history.len() > 0 {
        lemma_possible_before(history);
        law_clients_know_the_connection(history.drop_last());
        let before = messages(history.drop_last());
        match last_message(history) {
            Some(message) => {
                assert(before.push(message).drop_last() == before);
            },
            None => {},
        }
    }
}

/// The messages about the connection alternate: the first says that it is made, the next
/// that it is lost, and so on.
pub proof fn law_announcements_alternate(history: Seq<Happening>)
    requires
        possible(history),
    ensures
        forall|i: int|
            0 <= i < announced(messages(history)).len() ==> #[trigger] announced(
                messages(history),
            )[i] == (i % 2 == 0),
        (announced(messages(history)).len() % 2 == 1) == (stage_now(history) == Stage::Serving),
    decreases history.len(),
{
    if history.len() > 0 {
        lemma_possible_before(history);
        law_announcements_alternate(history.drop_last());
        let before = messages(history.drop_last());
        match last_message(history) {
            Some(message) => {
                assert(before.push(message).drop_last() == before);
            },
            None => {},
        }
    }
}

/// Properties are heard of only between the message that the connection is made and the
/// one that it is lost.
pub proof fn law_news_needs_a_connection(history: Seq<Happening>, i: int)
    requires
        possible(history),
        0 <= i < messages(history).len(),
        messages(history)[i] is News,
    ensures
        live(messages(history).take(i)),
    decreases history.len(),
{
    lemma_possible_before(history);
    let before = messages(history.drop_last());
    if i < before.len() {
        law_news_needs_a_connection(history.drop_last(), i);
        assert(messages(history).take(i) == before.take(i));
    } else {
        law_clients_know_the_connection(history.drop_last());
        assert(messages(history).take(i) == before);
    }
}

/// Nothing is known of mpv without a connection. So nothing is when the clients hear that
/// the connection is lost, and nothing when they hear that it is made.
pub proof fn law_nothing_is_known_without_a_connection(history: Seq<Happening>)
    requires
        possible(history),
    ensures
        stage_now(history) != Stage::Serving ==> known(history) == Map::<
            Seq<char>,
            JsonView,
        >::empty(),
        history.len() > 0 && last_message(history) is Some && last_message(history)->0 is Connected
            ==> known(history) == Map::<Seq<char>, JsonView>::empty(),
    decreases history.len(),
{
    if history.len() > 0 {
        lemma_possible_before(history);
        law_nothing_is_known_without_a_connection(history.drop_last());
    }
}

/// Connecting leads to serving if it works, whoever started mpv; if it does not, mpv is
/// started unless one that was started is alive, and then there is a wait.
pub proof fn law_connecting_goes_on(launched: bool)
    ensures
        next_stage(Stage::Connecting { launched }, Outcome::Connected(true)) == Stage::Serving,
        next_stage(Stage::Connecting { launched: false }, Outcome::Connected(false))
            == Stage::Launching,
        next_stage(Stage::Connecting { launched: true }, Outcome::Connected(false))
            == (Stage::Waiting { launched: true }),
        next_stage(Stage::Connecting { launched }, Outcome::Died) == (Stage::Connecting {
            launched: false,
        }),
{
}

/// Whether mpv could be started is remembered through the wait, until mpv dies, and after
/// the wait connecting is tried again.
pub proof fn law_starting_is_remembered(ok: bool)
    ensures
        next_stage(Stage::Launching, Outcome::Launched(ok)) == (Stage::Waiting { launched: ok }),
        next_stage(Stage::Waiting { launched: ok }, Outcome::Woke) == (Stage::Connecting {
            launched: ok,
        }),
        next_stage(Stage::Waiting { launched: ok }, Outcome::Died) == (Stage::Waiting {
            launched: false,
        }),
        next_stage(Stage::Serving, Outcome::Lost) == Stage::Resting,
        next_stage(Stage::Resting, Outcome::Woke) == (Stage::Connecting { launched: false }),
{
}

/// Nothing but the outcome of its own duty, or the death of an mpv that was started, moves
/// a stage.
pub proof fn law_other_outcomes_change_nothing(stage: Stage, outcome: Outcome)
    ensures
        next_stage(stage, outcome) != stage ==> match stage {
            Stage::Connecting { launched } => outcome is Connected || (outcome is Died
                && launched),
            Stage::Launching => outcome is Launched,
            Stage::Waiting { launched } => outcome is Woke || (outcome is Died && launched),
            Stage::Serving => outcome is Lost,
            Stage::Resting => outcome is Woke,
        },
{
}

/// Half a second lies between two tries, and a whole one behind a lost connection. The other
/// duties are what their stages are for.
pub proof fn law_duties(launched: bool, stage: Stage)
    ensures
        stage_duty(Stage::Waiting { launched }) == Duty::Sleep(500),
        stage_duty(Stage::Resting) == Duty::Sleep(1000),
        stage_duty(stage) == Duty::Connect <==> stage is Connecting,
        stage_duty(stage) == Duty::Launch <==> stage == Stage::Launching,
        stage_duty(stage) == Duty::Serve <==> stage == Stage::Serving,
{
}

/// The clients hear of the connection when it is made and when it is lost and never else,
/// in an object whose only member says which; and all that is known is forgotten exactly
/// when it is lost.
pub proof fn law_stages_are_announced(
    stage: Stage,
    known: Map<Seq<char>, JsonView>,
    connected: bool,
)
    ensures
        announcement(stage) == Some(true) <==> stage == Stage::Serving,
        announcement(stage) == Some(false) <==> stage == Stage::Resting,
        connected_json(connected) == JsonView::Object(
            map!["connected"@ => JsonView::Bool(connected)],
        ),
        known_at_start(Stage::Resting, known) == Map::<Seq<char>, JsonView>::empty(),
        stage != Stage::Resting ==> known_at_start(stage, known) == known,
{
    assert(connected_json(connected)->Object_0 == map!["connected"@ => JsonView::Bool(connected)]);
}

} // verus!
