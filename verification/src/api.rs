//! The HTTP interface: what a request makes the remote do, and how it is answered.

use vstd::prelude::*;
use vstd::utf8::{decode_utf8, valid_utf8};

use crate::commands::{allowed, command_allowed};
use crate::json::{
    copy_items, items_view, object1, object2, one_member, text_json, text_value, two_members,
    uint_json, uint_value, Json, JsonView, Number,
};
use crate::mpv::{
    law_commands_are_numbered, law_responses_carry_the_result, result_view, ActionView,
    ConnectionView, EventView,
};
use crate::path::{check_path, confined, opt_path, within};
use crate::text::{chars_of, is_digit, utf8_text};

verus! {

/// An answer to an HTTP request: a status code and a JSON body.
pub struct Reply {
    pub status: u16,
    pub body: Json,
}

/// What a [`Reply`] stands for.
#[verifier::ext_equal]
pub struct ReplyView {
    pub status: u16,
    pub body: JsonView,
}

impl View for Reply {
    type V = ReplyView;

    open spec fn view(&self) -> ReplyView {
        ReplyView { status: self.status, body: self.body@ }
    }
}

/// An answer that says what is wrong.
pub open spec fn error_reply(status: u16, message: Seq<char>) -> ReplyView {
    ReplyView { status, body: object1("error"@, text_json(message)) }
}

/// An answer that hands out what was asked for.
pub open spec fn data_reply(data: JsonView) -> ReplyView {
    ReplyView { status: 200, body: object1("data"@, data) }
}

/// An answer that says what is wrong.
pub(crate) fn refuse(status: u16, message: &str) -> (r: Reply)
    ensures
        r@ == error_reply(status, message@),
{
    Reply { status, body: one_member("error", text_value(message)) }
}

/// What to do about a request: send mpv a command, or answer at once.
pub type Decision = Result<JsonView, ReplyView>;

/// What a decision stands for.
pub open spec fn decision_view(r: Result<Json, Reply>) -> Decision {
    match r {
        Ok(command) => Ok(command@),
        Err(reply) => Err(reply@),
    }
}

/// The command that a request for a command asks for.
pub open spec fn requested_command(body: JsonView) -> Option<Seq<JsonView>> {
    match body.field("command"@) {
        Some(v) => v.items(),
        None => None,
    }
}

/// What a request for a command leads to: the command goes to mpv as it is if it is
/// allowed, and is refused if not.
pub open spec fn command_decision(body: JsonView) -> Decision {
    match requested_command(body) {
        None => Err(error_reply(400, "expected {\"command\": [...]}"@)),
        Some(cmd) => if allowed(cmd) {
            Ok(JsonView::Array(cmd))
        } else {
            Err(error_reply(403, "command not allowed"@))
        },
    }
}

/// Decides about a request for a command.
pub fn api_command(body: &Json) -> (r: Result<Json, Reply>)
    ensures
        decision_view(r) == command_decision(body@),
{
    let wanted: Option<&Vec<Json>> = match body.get("command") {
        Some(v) => v.as_array(),
        None => None,
    };
    match wanted {
        Some(cmd) => if command_allowed(cmd.as_slice()) {
            Ok(Json::Array(copy_items(cmd)))
        } else {
            Err(refuse(403, "command not allowed"))
        },
        None => Err(refuse(400, "expected {\"command\": [...]}")),
    }
}

/// The answer to a request whose command mpv has executed, or has not.
pub open spec fn result_reply(result: Result<JsonView, Seq<char>>) -> ReplyView {
    match result {
        Ok(data) => data_reply(data),
        Err(e) => error_reply(502, e),
    }
}

/// The answer to a request whose command mpv has executed, or has not.
pub fn command_reply(result: Result<Json, String>) -> (r: Reply)
    ensures
        r@ == result_reply(result_view(result)),
{
    match result {
        Ok(data) => Reply { status: 200, body: one_member("data", data) },
        Err(e) => refuse(502, e.as_str()),
    }
}

/// Whether `c` is an ASCII letter.
pub open spec fn is_letter(c: char) -> bool {
    'a' <= c <= 'z' || 'A' <= c <= 'Z'
}

/// Whether `c` may stand in the scheme of an address.
pub open spec fn scheme_char(c: char) -> bool {
    is_letter(c) || is_digit(c) || c == '+' || c == '-' || c == '.'
}

/// Whether a text is the scheme of an address: a letter, and then letters, digits, `+`,
/// `-` and `.`.
pub open spec fn is_scheme(s: Seq<char>) -> bool {
    &&& s.len() > 0
    &&& is_letter(s[0])
    &&& forall|i: int| 0 <= i < s.len() ==> scheme_char(#[trigger] s[i])
}

/// Whether something to open is an address and not a local path: it begins with a scheme
/// and `://`.
pub open spec fn is_url(target: Seq<char>) -> bool {
    exists|i: int|
        0 < i <= target.len() - 3 && #[trigger] target.subrange(i, i + 3) == "://"@ && is_scheme(
            target.take(i),
        )
}

/// Whether `c` may stand in the scheme of an address.
fn in_scheme(c: char) -> (r: bool)
    ensures
        r == scheme_char(c),
{
    ('a' <= c && c <= 'z') || ('A' <= c && c <= 'Z') || ('0' <= c && c <= '9') || c == '+' || c
        == '-' || c == '.'
}

/// Whether something to open is an address.
fn url(target: &str) -> (r: bool)
    ensures
        r == is_url(target@),
{
    let chars: Vec<char> = chars_of(target);
    let mut n: usize = 0;
    while n < chars.len() && in_scheme(chars[n])
        invariant
            n <= chars@.len(),
            forall|j: int| 0 <= j < n ==> scheme_char(#[trigger] chars@[j]),
        decreases chars@.len() - n,
    {
        n += 1;
    }
    proof {
        reveal_strlit("://");
        assert("://"@.len() == 3);
        assert forall|i: int|
            0 < i <= target@.len() - 3 && #[trigger] target@.subrange(i, i + 3) == "://"@
                && is_scheme(target@.take(i)) implies i == n by {
            assert(target@.subrange(i, i + 3)[0] == target@[i]);
            if i > n {
                assert(target@.take(i)[n as int] == chars@[n as int]);
            }
        }
    }
    let first_is_letter: bool = n > 0 && (('a' <= chars[0] && chars[0] <= 'z') || ('A'
        <= chars[0] && chars[0] <= 'Z'));
    if !first_is_letter {
        assert(n > 0 ==> target@.take(n as int)[0] == chars@[0]);
        return false;
    }
    if chars.len() - n < 3 {
        return false;
    }
    let r: bool = chars[n] == ':' && chars[n + 1] == '/' && chars[n + 2] == '/';
    proof {
        let part = target@.subrange(n as int, n + 3);
        assert(part[0] == chars@[n as int] && part[1] == chars@[n + 1] && part[2]
            == chars@[n + 2]);
        if r {
            assert(part == "://"@);
            assert(is_scheme(target@.take(n as int)));
        }
    }
    r
}

/// The command that makes mpv play something in place of what it plays.
pub open spec fn load_command(target: Seq<char>) -> JsonView {
    JsonView::Array(seq![text_json("loadfile"@), text_json(target), text_json("replace"@)])
}

/// The command that makes mpv go on.
pub open spec fn resume_command() -> JsonView {
    JsonView::Array(
        seq![text_json("set_property"@), text_json("pause"@), JsonView::Bool(false)],
    )
}

/// What to do first about a request to open something.
pub enum Opening {
    /// Answer at once.
    Refuse(Reply),
    /// Find out the absolute form of this local path, without links.
    Resolve(String),
    /// Send mpv this command.
    Load(Json),
}

/// What an [`Opening`] stands for.
#[verifier::ext_equal]
pub enum OpeningView {
    Refuse(ReplyView),
    Resolve(Seq<char>),
    Load(JsonView),
}

impl View for Opening {
    type V = OpeningView;

    open spec fn view(&self) -> OpeningView {
        match *self {
            Opening::Refuse(reply) => OpeningView::Refuse(reply@),
            Opening::Resolve(target) => OpeningView::Resolve(target@),
            Opening::Load(command) => OpeningView::Load(command@),
        }
    }
}

/// What a request to open something leads to: an address is loaded, a local path is
/// looked at first.
pub open spec fn open_decision(body: JsonView) -> OpeningView {
    match body.field_text("target"@) {
        None => OpeningView::Refuse(error_reply(400, "expected {\"target\": \"...\"}"@)),
        Some(target) => if is_url(target) {
            OpeningView::Load(load_command(target))
        } else {
            OpeningView::Resolve(target)
        },
    }
}

/// What a request to open a local path leads to, once the path is resolved: it is loaded
/// if it lies under the root.
pub open spec fn resolved_decision(
    root: Seq<u8>,
    target: Seq<char>,
    canonical: Option<Seq<u8>>,
) -> Decision {
    if confined(root, canonical) is Some {
        Ok(load_command(target))
    } else {
        Err(error_reply(403, "path outside root"@))
    }
}

/// What follows once mpv has loaded something, or has not: it is made to go on.
pub open spec fn loaded_decision(result: Result<JsonView, Seq<char>>) -> Decision {
    match result {
        Ok(_) => Ok(resume_command()),
        Err(e) => Err(error_reply(502, e)),
    }
}

/// An array of three values.
fn three_items(a: Json, b: Json, c: Json) -> (r: Json)
    ensures
        r@ == JsonView::Array(seq![a@, b@, c@]),
{
    let mut items: Vec<Json> = Vec::new();
    items.push(a);
    items.push(b);
    items.push(c);
    assert(items_view(items@) == seq![a@, b@, c@]);
    Json::Array(items)
}

/// The command that makes mpv play something.
fn load_message(target: &str) -> (r: Json)
    ensures
        r@ == load_command(target@),
{
    three_items(text_value("loadfile"), text_value(target), text_value("replace"))
}

/// Decides about a request to open something.
pub fn api_open(body: &Json) -> (r: Opening)
    ensures
        r@ == open_decision(body@),
{
    match body.get_text("target") {
        Some(target) => if url(target) {
            Opening::Load(load_message(target))
        } else {
            Opening::Resolve(target.to_owned())
        },
        None => Opening::Refuse(refuse(400, "expected {\"target\": \"...\"}")),
    }
}

/// Goes on with a local path. `canonical` is what became of it, see [`check_path`]. mpv gets the path as the client wrote it.
pub fn open_resolved(root: &[u8], target: &str, canonical: Option<Vec<u8>>) -> (r: Result<
    Json,
    Reply,
>)
    ensures
        decision_view(r) == resolved_decision(root@, target@, opt_path(canonical)),
{
    match check_path(root, canonical) {
        Some(_) => Ok(load_message(target)),
        None => Err(refuse(403, "path outside root")),
    }
}

/// Goes on after mpv has loaded something, or has not.
pub fn open_loaded(result: Result<Json, String>) -> (r: Result<Json, Reply>)
    ensures
        decision_view(r) == loaded_decision(result_view(result)),
{
    match result {
        Ok(_) => Ok(
            three_items(text_value("set_property"), text_value("pause"), Json::Bool(false)),
        ),
        Err(e) => Err(refuse(502, e.as_str())),
    }
}

/// The answer to a request to open something that mpv has loaded. Whether mpv then went
/// on makes no difference.
pub fn open_reply(result: Result<Json, String>) -> (r: Reply)
    ensures
        r@ == data_reply(text_json("ok"@)),
{
    Reply { status: 200, body: one_member("data", text_value("ok")) }
}

/// The answer to a request for the port and the root. There is none if the root is not
/// UTF-8.
pub fn api_info(port: u16, root: &[u8]) -> (r: Option<Reply>)
    ensures
        match r {
            Some(reply) => valid_utf8(root@) && reply@ == (ReplyView {
                status: 200,
                body: object2(
                    "port"@,
                    uint_json(port as u64),
                    "root"@,
                    text_json(decode_utf8(root@)),
                ),
            }),
            None => !valid_utf8(root@),
        },
{
    match utf8_text(root) {
        Some(text) => Some(
            Reply {
                status: 200,
                body: two_members(
                    "port",
                    uint_value(port as u64),
                    "root",
                    text_value(text.as_str()),
                ),
            },
        ),
        None => None,
    }
}

/// The commands that a request to open something sends to mpv, one after another, if
/// resolving its path gives `canonical` and mpv answers the first command with `loaded`.
pub open spec fn open_commands(
    root: Seq<u8>,
    body: JsonView,
    canonical: Option<Seq<u8>>,
    loaded: Result<JsonView, Seq<char>>,
) -> Seq<JsonView> {
    let first = match open_decision(body) {
        OpeningView::Refuse(reply) => Err(reply),
        OpeningView::Resolve(target) => resolved_decision(root, target, canonical),
        OpeningView::Load(command) => Ok(command),
    };
    match first {
        Err(_) => Seq::empty(),
        Ok(load) => match loaded_decision(loaded) {
            Err(_) => seq![load],
            Ok(resume) => seq![load, resume],
        },
    }
}

/// Whatever a client asks for, what `/api/command` sends to mpv is an allowed command.
pub proof fn law_only_allowed_commands_are_sent(body: JsonView)
    ensures
        command_decision(body) matches Ok(sent) ==> sent matches JsonView::Array(cmd) && allowed(
            cmd,
        ) && requested_command(body) == Some(cmd),
{
}

/// Whatever a client asks for, `/api/open` makes mpv load what the client named, and that
/// only if it is an address or a file under the root, and then go on. It sends no other
/// command.
pub proof fn law_only_the_target_is_opened(
    root: Seq<u8>,
    body: JsonView,
    canonical: Option<Seq<u8>>,
    loaded: Result<JsonView, Seq<char>>,
)
    ensures
        ({
            let sent = open_commands(root, body, canonical, loaded);
            sent.len() > 0 ==> {
                &&& body.field_text("target"@) matches Some(target) && sent[0] == load_command(
                    target,
                ) && (is_url(target) || confined(root, canonical) is Some)
                &&& sent.len() == 1 || (sent.len() == 2 && sent[1] == resume_command()
                    && loaded is Ok)
            }
        }),
{
}

/// A target that begins with a slash is a local path, whatever follows: nothing is sent
/// unless it lies under the root.
pub proof fn law_absolute_paths_stay_under_the_root(
    root: Seq<u8>,
    body: JsonView,
    target: Seq<char>,
    canonical: Option<Seq<u8>>,
    loaded: Result<JsonView, Seq<char>>,
)
    requires
        body.field_text("target"@) == Some(target),
        target.len() > 0,
        target[0] == '/',
    ensures
        !is_url(target),
        open_decision(body) == OpeningView::Resolve(target),
        confined(root, canonical) is None ==> {
            &&& open_commands(root, body, canonical, loaded).len() == 0
            &&& resolved_decision(root, target, canonical) == Err::<JsonView, ReplyView>(
                error_reply(403, "path outside root"@),
            )
        },
{
    assert forall|i: int| 0 < i <= target.len() - 3 implies !is_scheme(target.take(i)) by {
        assert(target.take(i)[0] == '/');
    }
}

/// A command that mpv has executed is answered with 200 and its data, whatever that is,
/// `null` too, and with nothing else. 502 is the answer exactly if mpv has not executed it,
/// and then it carries the text of the error.
pub proof fn law_results_are_answered(result: Result<JsonView, Seq<char>>)
    ensures
        result matches Ok(data) ==> result_reply(result).status == 200 && result_reply(result).body
            == JsonView::Object(map!["data"@ => data]),
        result matches Err(e) ==> result_reply(result).status == 502 && result_reply(result).body
            == JsonView::Object(map!["error"@ => JsonView::Str(e)]),
{
    match result {
        Ok(data) => {
            assert(result_reply(result).body->Object_0 == map!["data"@ => data]);
        },
        Err(e) => {
            assert(result_reply(result).body->Object_0 == map!["error"@ => JsonView::Str(e)]);
        },
    }
}

/// An answer that says what is wrong has the given code and the message as its only
/// member, `error`; one that hands out data has 200 and the data as its only member.
pub proof fn law_answers_say_one_thing(status: u16, message: Seq<char>, data: JsonView)
    ensures
        error_reply(status, message).status == status,
        error_reply(status, message).body == JsonView::Object(
            map!["error"@ => JsonView::Str(message)],
        ),
        data_reply(data).status == 200,
        data_reply(data).body == JsonView::Object(map!["data"@ => data]),
{
    assert(error_reply(status, message).body->Object_0 == map![
        "error"@ => JsonView::Str(message),
    ]);
    assert(data_reply(data).body->Object_0 == map!["data"@ => data]);
}

/// A request for a command leads to one of three things: without a member `command` that is
/// an array it is malformed; a command on the list goes to mpv just as it came; any other is
/// forbidden.
pub proof fn law_commands_pass_or_are_refused(body: JsonView, m: Map<Seq<char>, JsonView>)
    ensures
        body == JsonView::Object(m) && m.contains_key("command"@) ==> (
        m["command"@] matches JsonView::Array(cmd) ==> if allowed(cmd) {
            command_decision(body) == Ok::<JsonView, ReplyView>(JsonView::Array(cmd))
        } else {
            command_decision(body) matches Err(r) && r.status == 403 && r.body
                == JsonView::Object(map!["error"@ => JsonView::Str("command not allowed"@)])
        }),
        !(body matches JsonView::Object(all) && all.contains_key("command"@) && all["command"@]
            is Array) ==> (command_decision(body) matches Err(r) && r.status == 400 && r.body
            == JsonView::Object(
            map!["error"@ => JsonView::Str("expected {\"command\": [...]}"@)],
        )),
{
    law_answers_say_one_thing(403, "command not allowed"@, JsonView::Null);
    law_answers_say_one_thing(400, "expected {\"command\": [...]}"@, JsonView::Null);
}

/// Every address is loaded, and loaded as it is: a scheme, `://` and any text at all.
/// Nobody looks at the disk for it.
pub proof fn law_addresses_are_loaded(body: JsonView, scheme: Seq<char>, rest: Seq<char>)
    requires
        scheme.len() > 0,
        'a' <= scheme[0] <= 'z' || 'A' <= scheme[0] <= 'Z',
        forall|i: int|
            0 <= i < scheme.len() ==> {
                let c = #[trigger] scheme[i];
                'a' <= c <= 'z' || 'A' <= c <= 'Z' || '0' <= c <= '9' || c == '+' || c == '-' || c
                    == '.'
            },
        body.field("target"@) == Some(JsonView::Str(scheme + "://"@ + rest)),
    ensures
        open_decision(body) == OpeningView::Load(
            JsonView::Array(
                seq![
                    JsonView::Str("loadfile"@),
                    JsonView::Str(scheme + "://"@ + rest),
                    JsonView::Str("replace"@),
                ],
            ),
        ),
{
    let target = scheme + "://"@ + rest;
    let n = scheme.len() as int;
    reveal_strlit("://");
    assert("://"@.len() == 3);
    assert(target.subrange(n, n + 3) == "://"@);
    assert(target.take(n) == scheme);
    assert(is_url(target));
}

/// What is not an address is looked up on the disk under the name that the client gave. A
/// target that is missing or is no text is malformed.
pub proof fn law_other_targets_are_looked_up(body: JsonView, target: Seq<char>)
    ensures
        body.field("target"@) == Some(JsonView::Str(target)) && (forall|i: int|
            0 < i <= target.len() - 3 && #[trigger] target.subrange(i, i + 3) == "://"@ ==> exists|
                j: int,
            |
                0 <= j < i && !({
                    let c = #[trigger] target[j];
                    'a' <= c <= 'z' || 'A' <= c <= 'Z' || (j > 0 && ('0' <= c <= '9' || c == '+'
                        || c == '-' || c == '.'))
                })) ==> open_decision(body) == OpeningView::Resolve(target),
        !(body.field("target"@) matches Some(JsonView::Str(_))) ==> (open_decision(body)
            matches OpeningView::Refuse(r) && r.status == 400 && r.body == JsonView::Object(
            map!["error"@ => JsonView::Str("expected {\"target\": \"...\"}"@)],
        )),
{
    law_answers_say_one_thing(400, "expected {\"target\": \"...\"}"@, JsonView::Null);
    if body.field("target"@) == Some(JsonView::Str(target)) && (forall|i: int|
        0 < i <= target.len() - 3 && #[trigger] target.subrange(i, i + 3) == "://"@ ==> exists|
            j: int,
        |
            0 <= j < i && !({
                let c = #[trigger] target[j];
                'a' <= c <= 'z' || 'A' <= c <= 'Z' || (j > 0 && ('0' <= c <= '9' || c == '+' || c
                    == '-' || c == '.'))
            })) {
        if is_url(target) {
            let i = choose|i: int|
                0 < i <= target.len() - 3 && #[trigger] target.subrange(i, i + 3) == "://"@
                    && is_scheme(target.take(i));
            let j = choose|j: int|
                0 <= j < i && !({
                    let c = #[trigger] target[j];
                    'a' <= c <= 'z' || 'A' <= c <= 'Z' || (j > 0 && ('0' <= c <= '9' || c == '+'
                        || c == '-' || c == '.'))
                });
            assert(target.take(i)[j] == target[j]);
            assert(target.take(i)[0] == target[0]);
        }
    }
}

/// A local path is loaded under the name that the client gave exactly if what it resolves to
/// lies under the root. Otherwise, or if there is no such file, it is forbidden.
pub proof fn law_local_paths_are_confined(root: Seq<u8>, target: Seq<char>, path: Seq<u8>)
    ensures
        within(root, path) ==> resolved_decision(root, target, Some(path)) == Ok::<
            JsonView,
            ReplyView,
        >(
            JsonView::Array(
                seq![
                    JsonView::Str("loadfile"@),
                    JsonView::Str(target),
                    JsonView::Str("replace"@),
                ],
            ),
        ),
        !within(root, path) ==> (resolved_decision(root, target, Some(path)) matches Err(r)
            && r.status == 403 && r.body == JsonView::Object(
            map!["error"@ => JsonView::Str("path outside root"@)],
        )),
        resolved_decision(root, target, None) matches Err(r) && r.status == 403 && r.body
            == JsonView::Object(map!["error"@ => JsonView::Str("path outside root"@)]),
{
    law_answers_say_one_thing(403, "path outside root"@, JsonView::Null);
}

/// Whatever mpv says when it has loaded something, it is then told not to pause; if it has
/// not, the client is told why.
pub proof fn law_loaded_is_played(data: JsonView, e: Seq<char>)
    ensures
        loaded_decision(Ok(data)) == Ok::<JsonView, ReplyView>(
            JsonView::Array(
                seq![
                    JsonView::Str("set_property"@),
                    JsonView::Str("pause"@),
                    JsonView::Bool(false),
                ],
            ),
        ),
        loaded_decision(Err(e)) matches Err(r) && r.status == 502 && r.body == JsonView::Object(
            map!["error"@ => JsonView::Str(e)],
        ),
{
    law_answers_say_one_thing(502, e, JsonView::Null);
}

/// Replies and decisions stand for what they hold.
pub proof fn law_replies_stand_for_themselves(reply: Reply, command: Json, target: String)
    ensures
        reply@.status == reply.status,
        reply@.body == reply.body@,
        decision_view(Ok(command)) == Ok::<JsonView, ReplyView>(command@),
        decision_view(Err(reply)) == Err::<JsonView, ReplyView>(reply@),
        Opening::Refuse(reply)@ == OpeningView::Refuse(reply@),
        Opening::Resolve(target)@ == OpeningView::Resolve(target@),
        Opening::Load(command)@ == OpeningView::Load(command@),
{
}

/// The whole way of a command: one on the list is written to mpv as the client sent it, and
/// if mpv then answers its request id with success, the client who sent it gets 200 and the
/// data of that answer, `null` if it has none; if mpv answers with another text, the client
/// gets 502 and that text.
pub proof fn law_a_command_comes_back_with_its_result<R>(
    conn: ConnectionView<R>,
    reply: R,
    cmd: Seq<JsonView>,
    body: JsonView,
    answer: Map<Seq<char>, JsonView>,
    now: u64,
    later: u64,
)
    requires
        conn.wf(),
        conn.next_id < u64::MAX,
        allowed(cmd),
        body.field("command"@) == Some(JsonView::Array(cmd)),
        answer.contains_key("request_id"@),
        answer["request_id"@] == JsonView::Number(Number::PosInt(conn.next_id)),
        answer.contains_key("error"@),
        answer["error"@] is Str,
    ensures
        ({
            let sent = command_decision(body)->Ok_0;
            let asked = EventView::Command { cmd: sent, reply };
            let answered = EventView::<R>::Line(Some(JsonView::Object(answer)));
            &&& command_decision(body) is Ok
            &&& conn.action(asked, now) matches ActionView::Write(JsonView::Object(written))
            &&& written["command"@] == JsonView::Array(cmd)
            &&& conn.after(asked, now).action(answered, later) matches ActionView::Answer {
                reply: who,
                result,
            }
            &&& who == reply
            &&& answer["error"@] == JsonView::Str("success"@) ==> result_reply(result).status == 200
                && result_reply(result).body == JsonView::Object(
                map![
                    "data"@ => if answer.contains_key("data"@) {
                        answer["data"@]
                    } else {
                        JsonView::Null
                    },
                ],
            )
            &&& answer["error"@] != JsonView::Str("success"@) ==> result_reply(result).status == 502
                && result_reply(result).body == JsonView::Object(
                map!["error"@ => answer["error"@]],
            )
        }),
{
    let sent = command_decision(body)->Ok_0;
    let asked = EventView::Command { cmd: sent, reply };
    let after = conn.after(asked, now);
    law_commands_are_numbered(conn, Map::empty(), sent, reply, now);
    law_responses_carry_the_result(after, Map::empty(), answer, conn.next_id, later);
    let answered = EventView::<R>::Line(Some(JsonView::Object(answer)));
    law_results_are_answered(after.action(answered, later)->Answer_result);
}

} // verus!
