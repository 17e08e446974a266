//! The mpv commands that a client of the remote may send.

use vstd::prelude::*;

use crate::json::{items_view, Json, JsonView, Number};
use crate::text::same;

verus! {

/// Whether a value is the given string.
pub open spec fn is_text(v: JsonView, s: Seq<char>) -> bool {
    v.text() == Some(s)
}

/// Whether a property takes a number.
pub open spec fn numeric_property(v: JsonView) -> bool {
    is_text(v, "volume"@) || is_text(v, "speed"@)
}

/// Whether a property selects a track.
pub open spec fn track_property(v: JsonView) -> bool {
    is_text(v, "aid"@) || is_text(v, "sid"@)
}

/// Whether a property is a switch.
pub open spec fn switch_property(v: JsonView) -> bool {
    is_text(v, "pause"@) || is_text(v, "fullscreen"@) || is_text(v, "mute"@)
}

/// Whether `value` may be assigned to `property`: a number for the volume and the
/// speed, a number or `"no"` for a track, `true` or `false` for a switch, and nothing
/// for any other property.
pub open spec fn assignable(property: JsonView, value: JsonView) -> bool {
    ||| numeric_property(property) && value is Number
    ||| track_property(property) && (value is Number || is_text(value, "no"@))
    ||| switch_property(property) && value is Bool
}

/// `["stop"]`.
pub open spec fn stop_command(cmd: Seq<JsonView>) -> bool {
    cmd.len() == 1 && is_text(cmd[0], "stop"@)
}

/// `["cycle", s]`, where `s` names a switch.
pub open spec fn cycle_command(cmd: Seq<JsonView>) -> bool {
    cmd.len() == 2 && is_text(cmd[0], "cycle"@) && switch_property(cmd[1])
}

/// `["seek", n]` or `["seek", n, how]`, where `n` is a number and `how` is `"absolute"` or
/// `"relative"`.
pub open spec fn seek_command(cmd: Seq<JsonView>) -> bool {
    &&& 2 <= cmd.len() <= 3
    &&& is_text(cmd[0], "seek"@)
    &&& cmd[1] is Number
    &&& cmd.len() == 3 ==> is_text(cmd[2], "absolute"@) || is_text(cmd[2], "relative"@)
}

/// `["set_property", p, v]`, where `v` may be assigned to `p`.
pub open spec fn set_command(cmd: Seq<JsonView>) -> bool {
    cmd.len() == 3 && is_text(cmd[0], "set_property"@) && assignable(cmd[1], cmd[2])
}

/// The commands that a client may send: these four forms and no others.
pub open spec fn allowed(cmd: Seq<JsonView>) -> bool {
    ||| stop_command(cmd)
    ||| cycle_command(cmd)
    ||| seek_command(cmd)
    ||| set_command(cmd)
}

/// Whether a value is the given string.
fn text_is(v: &Json, s: &str) -> (r: bool)
    ensures
        r == is_text(v@, s@),
{
    match v.as_str() {
        Some(t) => same(t, s),
        None => false,
    }
}

/// Whether a value names a switch.
fn is_switch(v: &Json) -> (r: bool)
    ensures
        r == switch_property(v@),
{
    text_is(v, "pause") || text_is(v, "fullscreen") || text_is(v, "mute")
}

/// Whether `value` may be assigned to `property`.
fn may_assign(property: &Json, value: &Json) -> (r: bool)
    ensures
        r == assignable(property@, value@),
{
    proof {
        lemma_property_kinds(property@);
    }
    if text_is(property, "volume") || text_is(property, "speed") {
        value.is_number()
    } else if text_is(property, "aid") || text_is(property, "sid") {
        value.is_number() || text_is(value, "no")
    } else {
        is_switch(property) && value.is_boolean()
    }
}

/// No property name is of two kinds.
proof fn lemma_property_kinds(v: JsonView)
    ensures
        numeric_property(v) ==> !track_property(v) && !switch_property(v),
        track_property(v) ==> !switch_property(v),
{
    reveal_strlit("volume");
    reveal_strlit("speed");
    reveal_strlit("aid");
    reveal_strlit("sid");
    reveal_strlit("pause");
    reveal_strlit("fullscreen");
    reveal_strlit("mute");
    assert("volume"@.len() == 6 && "speed"@.len() == 5 && "aid"@.len() == 3 && "sid"@.len() == 3);
    assert("pause"@.len() == 5 && "fullscreen"@.len() == 10 && "mute"@.len() == 4);
    assert("speed"@[0] == 's' && "pause"@[0] == 'p');
}

/// Decides whether a client may send the command `cmd` to mpv.
///
/// A raw passthrough would hand every client mpv's `run` and `load-script`, which
/// execute programs. Only the verbs that the remote needs pass.
pub fn command_allowed(cmd: &[Json]) -> (r: bool)
    ensures
        r == allowed(items_view(cmd@)),
{
    let ghost view = items_view(cmd@);
    if cmd.len() == 0 {
        return false;
    }
    assert(view[0] == cmd@[0]@);
    proof {
        lemma_verbs();
    }
    if text_is(&cmd[0], "stop") {
        return cmd.len() == 1;
    }
    if text_is(&cmd[0], "cycle") {
        return cmd.len() == 2 && is_switch(&cmd[1]);
    }
    if text_is(&cmd[0], "seek") {
        if cmd.len() < 2 || cmd.len() > 3 || !cmd[1].is_number() {
            return false;
        }
        return cmd.len() == 2 || text_is(&cmd[2], "absolute") || text_is(&cmd[2], "relative");
    }
    if text_is(&cmd[0], "set_property") {
        return cmd.len() == 3 && may_assign(&cmd[1], &cmd[2]);
    }
    false
}

/// The four verbs are different strings.
proof fn lemma_verbs()
    ensures
        "stop"@ != "cycle"@,
        "stop"@ != "seek"@,
        "stop"@ != "set_property"@,
        "cycle"@ != "seek"@,
        "cycle"@ != "set_property"@,
        "seek"@ != "set_property"@,
{
    reveal_strlit("stop");
    reveal_strlit("cycle");
    reveal_strlit("seek");
    reveal_strlit("set_property");
    assert("stop"@.len() == 4 && "cycle"@.len() == 5 && "set_property"@.len() == 12);
    assert("seek"@.len() == 4);
    assert("stop"@[1] == 't');
    assert("seek"@[1] == 'e');
}

/// A command that does not begin with one of the four verbs is rejected, whatever its
/// arguments. So are `run`, `load-script`, `subprocess`, `loadfile`, `quit` and the
/// empty command.
pub proof fn law_other_verbs_are_rejected(cmd: Seq<JsonView>)
    requires
        cmd.len() > 0 ==> {
            &&& !is_text(cmd[0], "stop"@)
            &&& !is_text(cmd[0], "cycle"@)
            &&& !is_text(cmd[0], "seek"@)
            &&& !is_text(cmd[0], "set_property"@)
        },
    ensures
        !allowed(cmd),
{
}

/// An allowed command assigns to no property but the volume, the speed, the two track
/// selectors and the three switches, and it assigns no text but `"no"`.
pub proof fn law_only_safe_properties_are_set(cmd: Seq<JsonView>)
    requires
        allowed(cmd),
        is_text(cmd[0], "set_property"@),
    ensures
        numeric_property(cmd[1]) || track_property(cmd[1]) || switch_property(cmd[1]),
        cmd[2] is Str ==> is_text(cmd[2], "no"@),
{
    lemma_verbs();
}

/// An allowed command is no longer than its form, so nothing can be hidden behind it.
pub proof fn law_nothing_follows_the_form(cmd: Seq<JsonView>, more: Seq<JsonView>)
    requires
        allowed(cmd),
        more.len() > 0,
        allowed(cmd + more),
    ensures
        is_text(cmd[0], "seek"@),
        cmd.len() == 2,
        more.len() == 1,
        is_text(more[0], "absolute"@) || is_text(more[0], "relative"@),
{
    lemma_verbs();
    let all = cmd + more;
    assert(all[0] == cmd[0]);
    assert(all[cmd.len() as int] == more[0]);
}

/// The whole list of what a client may send, written out. `n` stands for every number and
/// `b` for both truth values.
pub proof fn law_the_commands_of_the_page_are_allowed(n: Number, b: bool)
    ensures
        allowed(seq![JsonView::Str("stop"@)]),
        allowed(seq![JsonView::Str("cycle"@), JsonView::Str("pause"@)]),
        allowed(seq![JsonView::Str("cycle"@), JsonView::Str("mute"@)]),
        allowed(seq![JsonView::Str("cycle"@), JsonView::Str("fullscreen"@)]),
        allowed(seq![JsonView::Str("seek"@), JsonView::Number(n)]),
        allowed(seq![JsonView::Str("seek"@), JsonView::Number(n), JsonView::Str("absolute"@)]),
        allowed(seq![JsonView::Str("seek"@), JsonView::Number(n), JsonView::Str("relative"@)]),
        forall|p: Seq<char>|
            p == "volume"@ || p == "speed"@ || p == "aid"@ || p == "sid"@ ==> allowed(
                #[trigger] seq![
                    JsonView::Str("set_property"@),
                    JsonView::Str(p),
                    JsonView::Number(n),
                ],
            ),
        forall|p: Seq<char>|
            p == "aid"@ || p == "sid"@ ==> allowed(
                #[trigger] seq![
                    JsonView::Str("set_property"@),
                    JsonView::Str(p),
                    JsonView::Str("no"@),
                ],
            ),
        forall|p: Seq<char>|
            p == "pause"@ || p == "mute"@ || p == "fullscreen"@ ==> allowed(
                #[trigger] seq![
                    JsonView::Str("set_property"@),
                    JsonView::Str(p),
                    JsonView::Bool(b),
                ],
            ),
{
}

/// Nothing is allowed that is not on the list.
pub proof fn law_nothing_else_is_allowed(cmd: Seq<JsonView>)
    requires
        allowed(cmd),
    ensures
        ({
            ||| cmd == seq![JsonView::Str("stop"@)]
            ||| cmd == seq![JsonView::Str("cycle"@), JsonView::Str("pause"@)]
            ||| cmd == seq![JsonView::Str("cycle"@), JsonView::Str("mute"@)]
            ||| cmd == seq![JsonView::Str("cycle"@), JsonView::Str("fullscreen"@)]
            ||| exists|n: Number|
                cmd == #[trigger] seq![JsonView::Str("seek"@), JsonView::Number(n)]
            ||| exists|n: Number|
                cmd == #[trigger] seq![
                    JsonView::Str("seek"@),
                    JsonView::Number(n),
                    JsonView::Str("absolute"@),
                ]
            ||| exists|n: Number|
                cmd == #[trigger] seq![
                    JsonView::Str("seek"@),
                    JsonView::Number(n),
                    JsonView::Str("relative"@),
                ]
            ||| exists|p: Seq<char>, n: Number|
                (p == "volume"@ || p == "speed"@ || p == "aid"@ || p == "sid"@) && cmd
                    == #[trigger] seq![
                    JsonView::Str("set_property"@),
                    JsonView::Str(p),
                    JsonView::Number(n),
                ]
            ||| exists|p: Seq<char>|
                (p == "aid"@ || p == "sid"@) && cmd == #[trigger] seq![
                    JsonView::Str("set_property"@),
                    JsonView::Str(p),
                    JsonView::Str("no"@),
                ]
            ||| exists|p: Seq<char>, b: bool|
                (p == "pause"@ || p == "mute"@ || p == "fullscreen"@) && cmd == #[trigger] seq![
                    JsonView::Str("set_property"@),
                    JsonView::Str(p),
                    JsonView::Bool(b),
                ]
        }),
{
    if stop_command(cmd) {
        assert(cmd == seq![JsonView::Str("stop"@)]);
    } else if cycle_command(cmd) {
        assert(cmd == seq![JsonView::Str("cycle"@), JsonView::Str(cmd[1]->Str_0)]);
    } else if seek_command(cmd) {
        let n = cmd[1]->Number_0;
        if cmd.len() == 2 {
            assert(cmd == seq![JsonView::Str("seek"@), JsonView::Number(n)]);
        } else {
            assert(cmd == seq![
                JsonView::Str("seek"@),
                JsonView::Number(n),
                JsonView::Str(cmd[2]->Str_0),
            ]);
        }
    } else {
        let p = cmd[1]->Str_0;
        match cmd[2] {
            JsonView::Number(n) => {
                assert(cmd == seq![
                    JsonView::Str("set_property"@),
                    JsonView::Str(p),
                    JsonView::Number(n),
                ]);
            },
            JsonView::Bool(b) => {
                assert(cmd == seq![
                    JsonView::Str("set_property"@),
                    JsonView::Str(p),
                    JsonView::Bool(b),
                ]);
            },
            _ => {
                assert(cmd == seq![
                    JsonView::Str("set_property"@),
                    JsonView::Str(p),
                    JsonView::Str("no"@),
                ]);
            },
        }
    }
}

} // verus!
