//! The conversation with mpv over its JSON IPC socket.

use std::collections::HashMap;

use vstd::prelude::*;

use crate::json::{
    copy_json, copy_members, items_view, members_view, object1, object2, one_member, set_member,
    text_json, text_value, two_members, uint_json, uint_value, Json, JsonView, Number,
};
use crate::text::same;

verus! {

broadcast use vstd::std_specs::hash::group_hash_axioms;

/// How long a playback position is held back after one was passed on, in nanoseconds.
pub const TIME_POS_PAUSE: u64 = 500_000_000;

/// The properties of mpv that the remote shows.
pub open spec fn observed() -> Seq<Seq<char>> {
    seq![
        "pause"@,
        "time-pos"@,
        "duration"@,
        "volume"@,
        "mute"@,
        "speed"@,
        "media-title"@,
        "path"@,
        "track-list"@,
        "idle-active"@,
        "fullscreen"@,
    ]
}

/// The request that makes mpv report changes of a property.
pub open spec fn observe_json(property: Seq<char>) -> JsonView {
    object1(
        "command"@,
        JsonView::Array(
            seq![text_json("observe_property"@), uint_json(0), text_json(property)],
        ),
    )
}

/// The request that makes mpv report changes of a property.
fn observe_message(property: &str) -> (r: Json)
    ensures
        r@ == observe_json(property@),
{
    let mut items: Vec<Json> = Vec::new();
    items.push(text_value("observe_property"));
    items.push(uint_value(0));
    items.push(text_value(property));
    assert(items_view(items@) == seq![
        text_json("observe_property"@),
        uint_json(0),
        text_json(property@),
    ]);
    one_member("command", Json::Array(items))
}

/// What is sent to mpv first on a new connection: one request for each observed property.
pub fn observe_messages() -> (r: Vec<Json>)
    ensures
        items_view(r@) == observed().map_values(|p: Seq<char>| observe_json(p)),
{
    let mut out: Vec<Json> = Vec::new();
    out.push(observe_message("pause"));
    out.push(observe_message("time-pos"));
    out.push(observe_message("duration"));
    out.push(observe_message("volume"));
    out.push(observe_message("mute"));
    out.push(observe_message("speed"));
    out.push(observe_message("media-title"));
    out.push(observe_message("path"));
    out.push(observe_message("track-list"));
    out.push(observe_message("idle-active"));
    out.push(observe_message("fullscreen"));
    assert(items_view(out@) == observed().map_values(|p: Seq<char>| observe_json(p)));
    out
}

/// A message as it goes over the socket: its bytes and a line feed.
pub fn write_line(message: Vec<u8>) -> (r: Vec<u8>)
    ensures
        r@ == message@.push(10),
{
    let mut out = message;
    out.push(10);
    out
}

/// The last known value of every property that mpv has reported.
pub struct Status {
    members: Vec<(String, Json)>,
}

impl View for Status {
    type V = Map<Seq<char>, JsonView>;

    closed spec fn view(&self) -> Map<Seq<char>, JsonView> {
        members_view(self.members@)
    }
}

impl Status {
    /// Nothing is known yet.
    pub fn new() -> (r: Status)
        ensures
            r@ == Map::<Seq<char>, JsonView>::empty(),
    {
        Status { members: Vec::new() }
    }

    /// Records the value of a property.
    pub fn insert(&mut self, name: String, value: Json)
        ensures
            final(self)@ == old(self)@.insert(name@, value@),
    {
        set_member(&mut self.members, name, value);
    }

    /// Forgets everything: what one mpv reported says nothing of the next.
    pub fn clear(&mut self)
        ensures
            final(self)@ == Map::<Seq<char>, JsonView>::empty(),
    {
        self.members = Vec::new();
    }

    /// The properties as a JSON object.
    pub fn to_json(&self) -> (r: Json)
        ensures
            r@ == JsonView::Object(self@),
    {
        Json::Object(copy_members(&self.members))
    }
}

/// What a connection remembers. `R` is where the answer to a command goes.
#[verifier::ext_equal]
pub struct ConnectionView<R> {
    /// How many of the observed properties mpv has been asked to report.
    pub asked: nat,
    /// The request id of the next command.
    pub next_id: u64,
    /// The commands that mpv has not answered, by request id.
    pub pending: Map<u64, R>,
    /// When a playback position was last passed on, in nanoseconds.
    pub last_time_pos: Option<u64>,
}

/// What happens on a connection.
pub enum Event<R> {
    /// A line from mpv, parsed. `None` is a line that is not JSON.
    Line(Option<Json>),
    /// mpv closed the connection, or it cannot be read.
    Eof,
    /// Somebody wants a command executed.
    Command { cmd: Json, reply: R },
    /// Nobody is left who could send a command.
    Closed,
    /// The message of the last action was written, or could not be.
    Wrote(bool),
}

/// What there is to do next on a connection.
pub enum Action<R> {
    /// Wait for the next event.
    Wait,
    /// Write a message and report whether that worked.
    Write(Json),
    /// Hand a command its result, then wait.
    Answer { reply: R, result: Result<Json, String> },
    /// Tell the clients, then wait.
    Publish(Json),
    /// Hand a command its result, then give the connection up.
    Fail { reply: R, result: Result<Json, String> },
    /// Give the connection up.
    Stop,
}

/// What an [`Action`] stands for.
#[verifier::ext_equal]
pub enum ActionView<R> {
    Wait,
    Write(JsonView),
    Answer { reply: R, result: Result<JsonView, Seq<char>> },
    Publish(JsonView),
    Fail { reply: R, result: Result<JsonView, Seq<char>> },
    Stop,
}

/// What an [`Event`] stands for.
#[verifier::ext_equal]
pub enum EventView<R> {
    Line(Option<JsonView>),
    Eof,
    Command { cmd: JsonView, reply: R },
    Closed,
    Wrote(bool),
}

/// The result of a command, as a value or as the text of an error.
pub open spec fn result_view(r: Result<Json, String>) -> Result<JsonView, Seq<char>> {
    match r {
        Ok(v) => Ok(v@),
        Err(e) => Err(e@),
    }
}

impl<R> View for Action<R> {
    type V = ActionView<R>;

    open spec fn view(&self) -> ActionView<R> {
        match *self {
            Action::Wait => ActionView::Wait,
            Action::Write(v) => ActionView::Write(v@),
            Action::Answer { reply, result } => ActionView::Answer {
                reply,
                result: result_view(result),
            },
            Action::Publish(v) => ActionView::Publish(v@),
            Action::Fail { reply, result } => ActionView::Fail {
                reply,
                result: result_view(result),
            },
            Action::Stop => ActionView::Stop,
        }
    }
}

impl<R> View for Event<R> {
    type V = EventView<R>;

    open spec fn view(&self) -> EventView<R> {
        match *self {
            Event::Line(Some(v)) => EventView::Line(Some(v@)),
            Event::Line(None) => EventView::Line(None),
            Event::Eof => EventView::Eof,
            Event::Command { cmd, reply } => EventView::Command { cmd: cmd@, reply },
            Event::Closed => EventView::Closed,
            Event::Wrote(ok) => EventView::Wrote(ok),
        }
    }
}

/// The result that a response of mpv carries: its `data` if its `error` is `"success"`,
/// and the text of its `error` if not.
pub open spec fn response_result(msg: JsonView) -> Result<JsonView, Seq<char>> {
    if msg.field_text("error"@) == Some("success"@) {
        Ok(event_data(msg))
    } else {
        match msg.field_text("error"@) {
            Some(e) => Err(e),
            None => Err("unknown"@),
        }
    }
}

/// The `data` of a message, `null` if there is none.
pub open spec fn event_data(msg: JsonView) -> JsonView {
    match msg.field("data"@) {
        Some(v) => v,
        None => JsonView::Null,
    }
}

/// The name of the property in a change event, empty if there is none.
pub open spec fn event_name(msg: JsonView) -> Seq<char> {
    match msg.field_text("name"@) {
        Some(name) => name,
        None => Seq::empty(),
    }
}

/// Whether a playback position is held back: one was passed on less than half a second
/// before.
pub open spec fn held_back(last: Option<u64>, now: u64) -> bool {
    last matches Some(t) && now < t + TIME_POS_PAUSE
}

/// Whether a message reports the change of a property. A message with a request id is
/// the response to a command, whatever else it holds.
pub open spec fn is_change(msg: JsonView) -> bool {
    msg.field_uint("request_id"@) is None && msg.field_text("event"@) == Some(
        "property-change"@,
    )
}

/// Whether a change is passed on to the clients: every one but the playback position,
/// and that if it is not held back.
pub open spec fn passed_on(last: Option<u64>, msg: JsonView, now: u64) -> bool {
    is_change(msg) && !(event_name(msg) == "time-pos"@ && held_back(last, now))
}

impl<R> ConnectionView<R> {
    /// Every unanswered command has a request id that was given out.
    pub open spec fn wf(self) -> bool {
        &&& self.asked <= observed().len()
        &&& self.next_id >= 1
        &&& forall|id: u64| #[trigger] self.pending.contains_key(id) ==> id < self.next_id
    }

    /// The request id that was given out last.
    pub open spec fn last_id(self) -> u64 {
        (self.next_id - 1) as u64
    }

    /// The connection after a line from mpv that arrived at `now`. `None` is a line that
    /// is not JSON.
    pub open spec fn after_line(self, msg: Option<JsonView>, now: u64) -> ConnectionView<R> {
        match msg {
            Some(m) => match m.field_uint("request_id"@) {
                Some(id) => ConnectionView { pending: self.pending.remove(id), ..self },
                None => if event_name(m) == "time-pos"@ && passed_on(self.last_time_pos, m, now) {
                    ConnectionView { last_time_pos: Some(now), ..self }
                } else {
                    self
                },
            },
            None => self,
        }
    }

    /// What there is to do after a line from mpv that arrived at `now`.
    pub open spec fn line_action(self, msg: Option<JsonView>, now: u64) -> ActionView<R> {
        match msg {
            Some(m) => match m.field_uint("request_id"@) {
                Some(id) => if self.pending.contains_key(id) {
                    ActionView::Answer {
                        reply: self.pending[id],
                        result: response_result(m),
                    }
                } else {
                    ActionView::Wait
                },
                None => if passed_on(self.last_time_pos, m, now) {
                    ActionView::Publish(object1(event_name(m), event_data(m)))
                } else {
                    ActionView::Wait
                },
            },
            None => ActionView::Wait,
        }
    }

    /// The connection after a command was given a request id.
    pub open spec fn after_command(self, reply: R) -> ConnectionView<R> {
        ConnectionView {
            next_id: (self.next_id + 1) as u64,
            pending: self.pending.insert(self.next_id, reply),
            ..self
        }
    }

    /// The connection after the last message was written, or could not be.
    pub open spec fn after_write(self, ok: bool) -> ConnectionView<R> {
        if self.asked < observed().len() {
            if ok {
                ConnectionView { asked: self.asked + 1, ..self }
            } else {
                self
            }
        } else if ok {
            self
        } else {
            ConnectionView { pending: self.pending.remove(self.last_id()), ..self }
        }
    }

    /// What there is to do after the last message was written, or could not be: ask for
    /// the next property, or wait. If a command could not be written, it fails.
    pub open spec fn write_action(self, ok: bool) -> ActionView<R> {
        if self.asked < observed().len() {
            if !ok {
                ActionView::Stop
            } else if self.asked + 1 < observed().len() {
                ActionView::Write(observe_json(observed()[self.asked as int + 1]))
            } else {
                ActionView::Wait
            }
        } else if ok {
            ActionView::Wait
        } else if self.pending.contains_key(self.last_id()) {
            ActionView::Fail {
                reply: self.pending[self.last_id()],
                result: Err("mpv write failed"@),
            }
        } else {
            ActionView::Stop
        }
    }

    /// The connection after an event at the time `now`.
    pub open spec fn after(self, event: EventView<R>, now: u64) -> ConnectionView<R> {
        match event {
            EventView::Line(msg) => self.after_line(msg, now),
            EventView::Command { cmd, reply } => self.after_command(reply),
            EventView::Wrote(ok) => self.after_write(ok),
            EventView::Eof | EventView::Closed => self,
        }
    }

    /// What there is to do after an event at the time `now`.
    pub open spec fn action(self, event: EventView<R>, now: u64) -> ActionView<R> {
        match event {
            EventView::Line(msg) => self.line_action(msg, now),
            EventView::Command { cmd, reply } => ActionView::Write(
                object2("command"@, cmd, "request_id"@, uint_json(self.next_id)),
            ),
            EventView::Wrote(ok) => self.write_action(ok),
            EventView::Eof | EventView::Closed => ActionView::Stop,
        }
    }
}

/// The known properties after an event: every change that mpv reports is recorded, also
/// one that is held back from the clients.
pub open spec fn status_after<R>(
    status: Map<Seq<char>, JsonView>,
    event: EventView<R>,
) -> Map<Seq<char>, JsonView> {
    match event {
        EventView::Line(Some(m)) => if is_change(m) {
            status.insert(event_name(m), event_data(m))
        } else {
            status
        },
        _ => status,
    }
}

/// A live connection to mpv.
pub struct Connection<R> {
    asked: usize,
    next_id: u64,
    pending: HashMap<u64, R>,
    last_time_pos: Option<u64>,
}

impl<R> View for Connection<R> {
    type V = ConnectionView<R>;

    closed spec fn view(&self) -> ConnectionView<R> {
        ConnectionView {
            asked: self.asked as nat,
            next_id: self.next_id,
            pending: self.pending@,
            last_time_pos: self.last_time_pos,
        }
    }
}

impl<R> Connection<R> {
    /// A new connection, and the first message to write on it.
    pub fn open() -> (r: (Connection<R>, Json))
        ensures
            r.0@.wf(),
            r.0@.asked == 0,
            r.0@.next_id == 1,
            r.0@.pending == Map::<u64, R>::empty(),
            r.0@.last_time_pos is None,
            r.1@ == observe_json(observed()[0]),
    {
        let conn = Connection {
            asked: 0,
            next_id: 1,
            pending: HashMap::new(),
            last_time_pos: None,
        };
        (conn, observe_message("pause"))
    }

    /// Whether a request id is left for another command.
    pub fn can_send(&self) -> (r: bool)
        ensures
            r == (self@.next_id < u64::MAX),
    {
        self.next_id < u64::MAX
    }

    /// Takes an event at the time `now`, in nanoseconds on a clock that does not run
    /// backwards, and says what there is to do.
    pub fn step(&mut self, status: &mut Status, event: Event<R>, now: u64) -> (r: Action<R>)
        requires
            old(self)@.wf(),
            event is Command ==> old(self)@.next_id < u64::MAX,
        ensures
            final(self)@.wf(),
            final(self)@ == old(self)@.after(event@, now),
            r@ == old(self)@.action(event@, now),
            final(status)@ == status_after(old(status)@, event@),
    {
        match event {
            Event::Line(Some(m)) => self.on_line(status, &m, now),
            Event::Line(None) => Action::Wait,
            Event::Command { cmd, reply } => self.on_command(cmd, reply),
            Event::Wrote(ok) => self.on_wrote(ok),
            Event::Eof => Action::Stop,
            Event::Closed => Action::Stop,
        }
    }

    /// Gives a command a request id and remembers where its answer goes.
    fn on_command(&mut self, cmd: Json, reply: R) -> (r: Action<R>)
        requires
            old(self)@.wf(),
            old(self)@.next_id < u64::MAX,
        ensures
            final(self)@.wf(),
            final(self)@ == old(self)@.after_command(reply),
            r@ == ActionView::<R>::Write(
                object2("command"@, cmd@, "request_id"@, uint_json(old(self)@.next_id)),
            ),
    {
        let id: u64 = self.next_id;
        self.next_id = id + 1;
        self.pending.insert(id, reply);
        assert(self@.pending == old(self)@.pending.insert(id, reply));
        Action::Write(two_members("command", cmd, "request_id", uint_value(id)))
    }

    /// Goes on after a message was written, or could not be.
    fn on_wrote(&mut self, ok: bool) -> (r: Action<R>)
        requires
            old(self)@.wf(),
        ensures
            final(self)@.wf(),
            final(self)@ == old(self)@.after_write(ok),
            r@ == old(self)@.write_action(ok),
    {
        assert(observed().len() == 11);
        if self.asked < 11 {
            if !ok {
                return Action::Stop;
            }
            self.asked = self.asked + 1;
            if self.asked < 11 {
                let messages: Vec<Json> = observe_messages();
                assert(items_view(messages@).len() == observed().len());
                assert(items_view(messages@)[self.asked as int] == messages@[self.asked as int]@);
                return Action::Write(copy_json(&messages[self.asked]));
            }
            return Action::Wait;
        }
        if ok {
            return Action::Wait;
        }
        let id: u64 = self.next_id - 1;
        let removed: Option<R> = self.pending.remove(&id);
        assert(self@.pending == old(self)@.pending.remove(id));
        match removed {
            Some(reply) => Action::Fail { reply, result: Err("mpv write failed".to_owned()) },
            None => Action::Stop,
        }
    }

    /// Takes a message from mpv that arrived at `now`.
    fn on_line(&mut self, status: &mut Status, m: &Json, now: u64) -> (r: Action<R>)
        requires
            old(self)@.wf(),
        ensures
            final(self)@.wf(),
            final(self)@ == old(self)@.after_line(Some(m@), now),
            r@ == old(self)@.line_action(Some(m@), now),
            final(status)@ == status_after::<R>(old(status)@, EventView::Line(Some(m@))),
    {
        if let Some(id) = m.get_uint("request_id") {
            let removed: Option<R> = self.pending.remove(&id);
            assert(self@.pending == old(self)@.pending.remove(id));
            return match removed {
                Some(reply) => Action::Answer { reply, result: result_of(m) },
                None => Action::Wait,
            };
        }
        match m.get_text("event") {
            Some(event) => {
                if !same(event, "property-change") {
                    return Action::Wait;
                }
            },
            None => {
                return Action::Wait;
            },
        }
        let name: String = match m.get_text("name") {
            Some(name) => name.to_owned(),
            None => String::new(),
        };
        let data: Json = data_of(m);
        status.insert(name.clone(), copy_json(&data));
        if same(name.as_str(), "time-pos") {
            if let Some(t) = self.last_time_pos {
                if now < t || now - t < TIME_POS_PAUSE {
                    return Action::Wait;
                }
            }
            self.last_time_pos = Some(now);
        }
        Action::Publish(one_member(name.as_str(), data))
    }
}

/// The `data` of a message.
fn data_of(msg: &Json) -> (r: Json)
    ensures
        r@ == event_data(msg@),
{
    match msg.get("data") {
        Some(v) => copy_json(v),
        None => Json::Null,
    }
}

/// The result that a response of mpv carries.
fn result_of(msg: &Json) -> (r: Result<Json, String>)
    ensures
        result_view(r) == response_result(msg@),
{
    match msg.get_text("error") {
        Some(e) => if same(e, "success") {
            Ok(data_of(msg))
        } else {
            Err(e.to_owned())
        },
        None => Err("unknown".to_owned()),
    }
}

/// What became of a command that was handed to the connection.
pub enum Delivery {
    /// There was nobody to take it.
    Refused,
    /// It was taken, but the connection ended without an answer.
    Dropped,
    /// It was answered.
    Answered(Result<Json, String>),
}

/// The result of a command, as its sender sees it.
pub fn command_result(delivery: Delivery) -> (r: Result<Json, String>)
    ensures
        result_view(r) == match delivery {
            Delivery::Refused => Err("mpv actor gone"@),
            Delivery::Dropped => Err("mpv disconnected"@),
            Delivery::Answered(result) => result_view(result),
        },
{
    match delivery {
        Delivery::Refused => Err("mpv actor gone".to_owned()),
        Delivery::Dropped => Err("mpv disconnected".to_owned()),
        Delivery::Answered(result) => result,
    }
}

/// An event and the time at which it happens.
pub type Timed<R> = (EventView<R>, u64);

/// Whether the connection can take the events one after another: a request id is left
/// for every command.
pub open spec fn runs<R>(conn: ConnectionView<R>, events: Seq<Timed<R>>) -> bool
    decreases events.len(),
{
    events.len() == 0 || {
        &&& runs(conn, events.drop_last())
        &&& events.last().0 is Command ==> run(conn, events.drop_last()).next_id < u64::MAX
    }
}

/// The connection after the events, one after another.
pub open spec fn run<R>(conn: ConnectionView<R>, events: Seq<Timed<R>>) -> ConnectionView<R>
    decreases events.len(),
{
    if events.len() == 0 {
        conn
    } else {
        run(conn, events.drop_last()).after(events.last().0, events.last().1)
    }
}

/// The known properties after the events, one after another.
pub open spec fn run_status<R>(
    status: Map<Seq<char>, JsonView>,
    events: Seq<Timed<R>>,
) -> Map<Seq<char>, JsonView>
    decreases events.len(),
{
    if events.len() == 0 {
        status
    } else {
        status_after(run_status(status, events.drop_last()), events.last().0)
    }
}

/// Whether the clock does not run backwards.
pub open spec fn in_order<R>(events: Seq<Timed<R>>) -> bool {
    forall|i: int, j: int| 0 <= i <= j < events.len() ==> (#[trigger] events[i]).1 <= (
    #[trigger] events[j]).1
}

/// Whether a playback position is passed on at the event `i`.
pub open spec fn position_passed_on<R>(
    conn: ConnectionView<R>,
    events: Seq<Timed<R>>,
    i: int,
) -> bool {
    events[i].0 matches EventView::Line(Some(m)) && event_name(m) == "time-pos"@ && passed_on(
        run(conn, events.take(i)).last_time_pos,
        m,
        events[i].1,
    )
}

/// After a playback position was passed on, the connection knows of one at least as late.
proof fn lemma_position_remembered<R>(
    conn: ConnectionView<R>,
    events: Seq<Timed<R>>,
    i: int,
    n: int,
)
    requires
        0 <= i < n <= events.len(),
        in_order(events),
        position_passed_on(conn, events, i),
    ensures
        run(conn, events.take(n)).last_time_pos matches Some(t) && t >= events[i].1,
    decreases n,
{
    let so_far = events.take(n);
    assert(so_far.drop_last() == events.take(n - 1));
    assert(so_far.last() == events[n - 1]);
    assert(events[i].1 <= events[n - 1].1);
    if n - 1 > i {
        lemma_position_remembered(conn, events, i, n - 1);
    }
}

/// Playback positions reach the clients at most twice a second: between any two that
/// are passed on lies half a second.
pub proof fn law_positions_are_throttled<R>(
    conn: ConnectionView<R>,
    events: Seq<Timed<R>>,
    i: int,
    j: int,
)
    requires
        0 <= i < j < events.len(),
        in_order(events),
        position_passed_on(conn, events, i),
        position_passed_on(conn, events, j),
    ensures
        events[j].1 >= events[i].1 + TIME_POS_PAUSE,
{
    lemma_position_remembered(conn, events, i, j);
}

/// Whether an event takes the command with the given request id off the list: the
/// response to it, or a message that could not be written.
pub open spec fn takes<R>(event: EventView<R>, id: u64) -> bool {
    ||| event matches EventView::Line(Some(m)) && m.field_uint("request_id"@) == Some(id)
    ||| event == EventView::<R>::Wrote(false)
}

/// The connection stays well formed, and request ids only grow.
proof fn lemma_run_wf<R>(conn: ConnectionView<R>, events: Seq<Timed<R>>)
    requires
        conn.wf(),
        runs(conn, events),
    ensures
        run(conn, events).wf(),
        run(conn, events).next_id >= conn.next_id,
    decreases events.len(),
{
    if events.len() > 0 {
        lemma_run_wf(conn, events.drop_last());
    }
}

/// A command waits until its response comes, whatever else happens meanwhile, and the
/// response then goes to whoever sent that command.
pub proof fn law_answer_reaches_its_command<R>(
    conn: ConnectionView<R>,
    reply: R,
    events: Seq<Timed<R>>,
    response: JsonView,
    now: u64,
)
    requires
        conn.wf(),
        conn.next_id < u64::MAX,
        runs(conn.after_command(reply), events),
        forall|k: int|
            0 <= k < events.len() ==> !takes((#[trigger] events[k]).0, conn.next_id),
        response.field_uint("request_id"@) == Some(conn.next_id),
    ensures
        run(conn.after_command(reply), events).action(EventView::Line(Some(response)), now)
            == (ActionView::Answer { reply, result: response_result(response) }),
    decreases events.len(),
{
    let sent = conn.after_command(reply);
    if events.len() > 0 {
        let before = events.drop_last();
        assert forall|k: int| 0 <= k < before.len() implies !takes(
            (#[trigger] before[k]).0,
            conn.next_id,
        ) by {
            assert(before[k] == events[k]);
        }
        law_answer_reaches_its_command(conn, reply, before, response, now);
        lemma_run_wf(sent, before);
        assert(events.last() == events[events.len() - 1]);
        assert(run(sent, before).pending.contains_key(conn.next_id));
        assert(run(sent, before).pending[conn.next_id] == reply);
    }
}

/// A command never gets a request id that was given out before, so no two commands share
/// an answer.
pub proof fn law_request_ids_are_fresh<R>(
    conn: ConnectionView<R>,
    reply: R,
    events: Seq<Timed<R>>,
)
    requires
        conn.wf(),
        conn.next_id < u64::MAX,
        runs(conn.after_command(reply), events),
    ensures
        run(conn.after_command(reply), events).next_id > conn.next_id,
        !run(conn.after_command(reply), events).pending.contains_key(
            run(conn.after_command(reply), events).next_id,
        ),
{
    lemma_run_wf(conn.after_command(reply), events);
}

/// A command that cannot be written is told so.
pub proof fn law_failed_write_is_answered<R>(conn: ConnectionView<R>, reply: R)
    requires
        conn.wf(),
        conn.asked == observed().len(),
        conn.next_id < u64::MAX,
    ensures
        conn.after_command(reply).write_action(false) == (ActionView::Fail {
            reply,
            result: Err("mpv write failed"@),
        }),
{
}

/// A response that was answered, or that nobody asked for, does nothing, then and ever
/// after: no command is answered twice, and none gets another's answer.
pub proof fn law_stray_response_is_ignored<R>(
    conn: ConnectionView<R>,
    events: Seq<Timed<R>>,
    response: JsonView,
    id: u64,
    now: u64,
)
    requires
        conn.wf(),
        id < conn.next_id,
        !conn.pending.contains_key(id),
        runs(conn, events),
        response.field_uint("request_id"@) == Some(id),
    ensures
        run(conn, events).action(EventView::Line(Some(response)), now) == ActionView::<R>::Wait,
        run(conn, events).after(EventView::Line(Some(response)), now) == run(conn, events),
    decreases events.len(),
{
    if events.len() > 0 {
        law_stray_response_is_ignored(conn, events.drop_last(), response, id, now);
        lemma_run_wf(conn, events.drop_last());
        assert(!run(conn, events.drop_last()).pending.contains_key(id)) by {
            if run(conn, events.drop_last()).pending.contains_key(id) {
                assert(run(conn, events.drop_last()).action(
                    EventView::Line(Some(response)),
                    now,
                ) is Answer);
            }
        }
    }
    assert(run(conn, events).pending.remove(id) == run(conn, events).pending);
}

/// What is known of a property is the last value that mpv reported.
pub proof fn law_status_is_latest<R>(
    status: Map<Seq<char>, JsonView>,
    events: Seq<Timed<R>>,
    i: int,
    change: JsonView,
)
    requires
        0 <= i < events.len(),
        events[i].0 == EventView::<R>::Line(Some(change)),
        is_change(change),
        forall|k: int|
            i < k < events.len() ==> !((#[trigger] events[k]).0 matches EventView::Line(Some(m))
                && is_change(m) && event_name(m) == event_name(change)),
    ensures
        run_status(status, events).contains_key(event_name(change)),
        run_status(status, events)[event_name(change)] == event_data(change),
    decreases events.len(),
{
    if i < events.len() - 1 {
        let before = events.drop_last();
        assert(before[i] == events[i]);
        assert forall|k: int| i < k < before.len() implies !((#[trigger] before[k]).0 matches
            EventView::Line(Some(m)) && is_change(m) && event_name(m) == event_name(change)) by {
            assert(before[k] == events[k]);
        }
        law_status_is_latest(status, before, i, change);
        assert(events.last() == events[events.len() - 1]);
    }
}

/// What somebody knows of mpv who begins with `known` and takes over everything that is
/// published.
pub open spec fn told<R>(
    known: Map<Seq<char>, JsonView>,
    conn: ConnectionView<R>,
    events: Seq<Timed<R>>,
) -> Map<Seq<char>, JsonView>
    decreases events.len(),
{
    if events.len() == 0 {
        known
    } else {
        let before = told(known, conn, events.drop_last());
        match run(conn, events.drop_last()).action(events.last().0, events.last().1) {
            ActionView::Publish(JsonView::Object(members)) => before.union_prefer_right(members),
            _ => before,
        }
    }
}

/// Who begins with the known properties and takes over what is published knows every
/// property as it is, but for the playback position, which is passed on now and then.
pub proof fn law_clients_know_the_status<R>(
    status: Map<Seq<char>, JsonView>,
    conn: ConnectionView<R>,
    events: Seq<Timed<R>>,
    name: Seq<char>,
)
    requires
        name != "time-pos"@,
    ensures
        told(status, conn, events).contains_key(name) == run_status(status, events).contains_key(
            name,
        ),
        run_status(status, events).contains_key(name) ==> told(status, conn, events)[name]
            == run_status(status, events)[name],
    decreases events.len(),
{
    if events.len() > 0 {
        law_clients_know_the_status(status, conn, events.drop_last(), name);
    }
}

/// A message of mpv with the given members whose event is a change of a property, and that
/// is not the response to a command.
pub open spec fn reports_a_change(m: Map<Seq<char>, JsonView>) -> bool {
    &&& !(m.contains_key("request_id"@) && m["request_id"@] matches JsonView::Number(
        Number::PosInt(_),
    ))
    &&& m.contains_key("event"@)
    &&& m["event"@] == JsonView::Str("property-change"@)
}

/// Every change that mpv reports is taken up, whatever the type of its value: the status
/// then holds the value under the name, and the clients are told the name and the value and
/// nothing else. Only a playback position may be kept from the clients, and that only if
/// less than half a second has passed since the last that they were told.
pub proof fn law_every_change_is_taken_up<R>(
    conn: ConnectionView<R>,
    status: Map<Seq<char>, JsonView>,
    m: Map<Seq<char>, JsonView>,
    name: Seq<char>,
    data: JsonView,
    now: u64,
)
    requires
        reports_a_change(m),
        if m.contains_key("name"@) && m["name"@] is Str {
            m["name"@] == JsonView::Str(name)
        } else {
            name.len() == 0
        },
        if m.contains_key("data"@) {
            data == m["data"@]
        } else {
            data == JsonView::Null
        },
    ensures
        ({
            let event = EventView::<R>::Line(Some(JsonView::Object(m)));
            let told = ActionView::<R>::Publish(JsonView::Object(map![name => data]));
            &&& status_after(status, event) == status.insert(name, data)
            &&& name != "time-pos"@ ==> conn.action(event, now) == told && conn.after(event, now)
                == conn
            &&& name == "time-pos"@ ==> match conn.last_time_pos {
                Some(t) if now < t + 500_000_000 => conn.action(event, now) == ActionView::<
                    R,
                >::Wait && conn.after(event, now) == conn,
                _ => conn.action(event, now) == told && conn.after(event, now) == (ConnectionView {
                    last_time_pos: Some(now),
                    ..conn
                }),
            }
        }),
{
    let msg = JsonView::Object(m);
    assert(event_name(msg) == name);
    assert(event_data(msg) == data);
    assert(object1(name, data)->Object_0 == map![name => data]);
}

/// A line that is not JSON, or is neither a response nor the report of a change, is passed
/// over: nothing is remembered, recorded or told.
pub proof fn law_other_lines_are_passed_over<R>(
    conn: ConnectionView<R>,
    status: Map<Seq<char>, JsonView>,
    msg: JsonView,
    now: u64,
)
    requires
        !(msg matches JsonView::Object(m) && (reports_a_change(m) || (m.contains_key(
            "request_id"@,
        ) && m["request_id"@] matches JsonView::Number(Number::PosInt(_))))),
    ensures
        conn.action(EventView::Line(Some(msg)), now) == ActionView::<R>::Wait,
        conn.after(EventView::Line(Some(msg)), now) == conn,
        status_after::<R>(status, EventView::Line(Some(msg))) == status,
        conn.action(EventView::Line(None), now) == ActionView::<R>::Wait,
        conn.after(EventView::Line(None), now) == conn,
        status_after::<R>(status, EventView::Line(None)) == status,
{
}

/// A response goes to the command with its request id and to no other, and takes it off the
/// list. It succeeds exactly if mpv calls it a success, with the data of the response or
/// `null`; otherwise it fails with the text that mpv gives, or `unknown`. A response that no
/// command waits for does nothing. Nothing is recorded.
pub proof fn law_responses_carry_the_result<R>(
    conn: ConnectionView<R>,
    status: Map<Seq<char>, JsonView>,
    m: Map<Seq<char>, JsonView>,
    id: u64,
    now: u64,
)
    requires
        m.contains_key("request_id"@),
        m["request_id"@] == JsonView::Number(Number::PosInt(id)),
    ensures
        ({
            let event = EventView::<R>::Line(Some(JsonView::Object(m)));
            let error = if m.contains_key("error"@) {
                m["error"@]
            } else {
                JsonView::Null
            };
            let data = if m.contains_key("data"@) {
                m["data"@]
            } else {
                JsonView::Null
            };
            &&& conn.after(event, now).pending == conn.pending.remove(id)
            &&& conn.after(event, now).next_id == conn.next_id
            &&& conn.after(event, now).asked == conn.asked
            &&& conn.after(event, now).last_time_pos == conn.last_time_pos
            &&& status_after(status, event) == status
            &&& !conn.pending.contains_key(id) ==> conn.action(event, now) == ActionView::<R>::Wait
            &&& conn.pending.contains_key(id) ==> {
                &&& conn.action(event, now) matches ActionView::Answer { reply, result }
                &&& reply == conn.pending[id]
                &&& error == JsonView::Str("success"@) ==> result == Ok::<JsonView, Seq<char>>(data)
                &&& error is Str && error != JsonView::Str("success"@) ==> result == Err::<
                    JsonView,
                    Seq<char>,
                >(error->Str_0)
                &&& !(error is Str) ==> result == Err::<JsonView, Seq<char>>("unknown"@)
            }
        }),
{
}

/// A command is written as it came, with the next request id beside it and nothing else; who
/// sent it waits under this id, and the next command gets the next one. Nothing else
/// changes.
pub proof fn law_commands_are_numbered<R>(
    conn: ConnectionView<R>,
    status: Map<Seq<char>, JsonView>,
    cmd: JsonView,
    reply: R,
    now: u64,
)
    requires
        conn.next_id < u64::MAX,
    ensures
        ({
            let event = EventView::Command { cmd, reply };
            let after = conn.after(event, now);
            &&& conn.action(event, now) matches ActionView::Write(JsonView::Object(m))
            &&& m.dom() == set!["command"@, "request_id"@]
            &&& m["command"@] == cmd
            &&& m["request_id"@] == JsonView::Number(Number::PosInt(conn.next_id))
            &&& after.next_id == conn.next_id + 1
            &&& after.pending == conn.pending.insert(conn.next_id, reply)
            &&& after.asked == conn.asked
            &&& after.last_time_pos == conn.last_time_pos
            &&& status_after(status, event) == status
        }),
{
    reveal_strlit("command");
    reveal_strlit("request_id");
    assert("command"@.len() == 7 && "request_id"@.len() == 10);
    let event = EventView::Command { cmd, reply };
    let m = conn.action(event, now)->Write_0->Object_0;
    assert(m.dom() == set!["command"@, "request_id"@]);
}

/// The properties are asked for one after another, in order and each once, as long as
/// writing works; then the connection waits. Once all are asked for, a write that worked
/// needs nothing more, and one that did not is the end, for the command that was written
/// with an error. Nothing is recorded.
pub proof fn law_writes_go_on<R>(
    conn: ConnectionView<R>,
    status: Map<Seq<char>, JsonView>,
    now: u64,
)
    requires
        conn.next_id >= 1,
    ensures
        ({
            let done = EventView::<R>::Wrote(true);
            let failed = EventView::<R>::Wrote(false);
            let last = (conn.next_id - 1) as u64;
            &&& status_after(status, done) == status
            &&& status_after(status, failed) == status
            &&& conn.asked < 11 ==> {
                &&& conn.after(done, now) == (ConnectionView { asked: conn.asked + 1, ..conn })
                &&& conn.after(failed, now) == conn
                &&& conn.action(failed, now) == ActionView::<R>::Stop
            }
            &&& conn.asked < 10 ==> conn.action(done, now) == ActionView::<R>::Write(
                JsonView::Object(
                    map![
                        "command"@ => JsonView::Array(
                            seq![
                                JsonView::Str("observe_property"@),
                                JsonView::Number(Number::PosInt(0)),
                                JsonView::Str(observed()[conn.asked as int + 1]),
                            ],
                        ),
                    ],
                ),
            )
            &&& conn.asked >= 10 ==> conn.action(done, now) == ActionView::<R>::Wait
            &&& conn.asked >= 11 ==> {
                &&& conn.after(done, now) == conn
                &&& conn.after(failed, now) == (ConnectionView {
                    pending: conn.pending.remove(last),
                    ..conn
                })
                &&& conn.action(failed, now) == if conn.pending.contains_key(last) {
                    ActionView::Fail {
                        reply: conn.pending[last],
                        result: Err("mpv write failed"@),
                    }
                } else {
                    ActionView::<R>::Stop
                }
            }
        }),
{
    assert(observed().len() == 11);
    law_what_is_observed(observed()[conn.asked as int + 1]);
}

/// The properties that the page shows are asked for, and mpv is asked in its own words.
pub proof fn law_what_is_observed(property: Seq<char>)
    ensures
        observed().len() == 11,
        observed()[0] == "pause"@,
        observed()[1] == "time-pos"@,
        observed()[2] == "duration"@,
        observed()[3] == "volume"@,
        observed()[4] == "mute"@,
        observed()[5] == "speed"@,
        observed()[6] == "media-title"@,
        observed()[7] == "path"@,
        observed()[8] == "track-list"@,
        observed()[9] == "idle-active"@,
        observed()[10] == "fullscreen"@,
        observe_json(property) == JsonView::Object(
            map![
                "command"@ => JsonView::Array(
                    seq![
                        JsonView::Str("observe_property"@),
                        JsonView::Number(Number::PosInt(0)),
                        JsonView::Str(property),
                    ],
                ),
            ],
        ),
{
    assert(observe_json(property)->Object_0 == map![
        "command"@ => JsonView::Array(
            seq![
                JsonView::Str("observe_property"@),
                JsonView::Number(Number::PosInt(0)),
                JsonView::Str(property),
            ],
        ),
    ]);
}

/// The end of either side ends the connection, and nothing else does but a write that
/// failed.
pub proof fn law_only_an_end_stops<R>(
    conn: ConnectionView<R>,
    status: Map<Seq<char>, JsonView>,
    event: EventView<R>,
    now: u64,
)
    ensures
        event == EventView::<R>::Eof || event == EventView::<R>::Closed ==> {
            &&& conn.action(event, now) == ActionView::<R>::Stop
            &&& conn.after(event, now) == conn
            &&& status_after(status, event) == status
        },
        conn.action(event, now) is Stop || conn.action(event, now) is Fail ==> event == EventView::<
            R,
        >::Eof || event == EventView::<R>::Closed || event == EventView::<R>::Wrote(false),
{
}

/// A connection is in order exactly if no more than all properties are asked for, request
/// ids begin at one, and every waiting command has an id that was given out.
pub proof fn law_what_is_in_order<R>(conn: ConnectionView<R>)
    ensures
        conn.wf() <==> {
            &&& conn.asked <= 11
            &&& conn.next_id >= 1
            &&& forall|id: u64| #[trigger] conn.pending.contains_key(id) ==> id < conn.next_id
        },
{
    assert(observed().len() == 11);
}

/// Events, actions and results stand for what they hold.
pub proof fn law_events_stand_for_themselves<R>(v: Json, e: String, reply: R, ok: bool)
    ensures
        result_view(Ok(v)) == Ok::<JsonView, Seq<char>>(v@),
        result_view(Err(e)) == Err::<JsonView, Seq<char>>(e@),
        Event::<R>::Line(Some(v))@ == EventView::<R>::Line(Some(v@)),
        Event::<R>::Line(None)@ == EventView::<R>::Line(None),
        Event::<R>::Eof@ == EventView::<R>::Eof,
        Event::<R>::Closed@ == EventView::<R>::Closed,
        Event::<R>::Wrote(ok)@ == EventView::<R>::Wrote(ok),
        (Event::Command { cmd: v, reply })@ == (EventView::Command { cmd: v@, reply }),
        Action::<R>::Wait@ == ActionView::<R>::Wait,
        Action::<R>::Stop@ == ActionView::<R>::Stop,
        Action::<R>::Write(v)@ == ActionView::<R>::Write(v@),
        Action::<R>::Publish(v)@ == ActionView::<R>::Publish(v@),
        (Action::Answer { reply, result: Ok(v) })@ == (ActionView::Answer { reply, result: Ok(v@) }),
        (Action::Answer { reply, result: Err(e) })@ == (ActionView::Answer {
            reply,
            result: Err(e@),
        }),
        (Action::Fail { reply, result: Ok(v) })@ == (ActionView::Fail { reply, result: Ok(v@) }),
        (Action::Fail { reply, result: Err(e) })@ == (ActionView::Fail { reply, result: Err(e@) }),
{
}

} // verus!
