//! `mpvremote status`: whether the daemon runs and where it is reached.

use vstd::prelude::*;
use vstd::utf8::encode_utf8;

use crate::json::{object2, two_members, uint_json, uint_value, Json, JsonView, Number};
use crate::path::{join, joined};
use crate::qr::{qr, qr_rendering, shown_code};
use crate::text::{decimal, lossy, occurs, push_decimal, texts, to_text};

verus! {

/// Where the running daemon records how it is reached: in the runtime directory, and in
/// `/tmp` if there is none.
pub fn state_file(runtime_dir: Option<&str>) -> (r: Vec<u8>)
    ensures
        r@ == joined(
            match runtime_dir {
                Some(dir) => encode_utf8(dir@),
                None => encode_utf8("/tmp"@),
            },
            encode_utf8("mpvremote.state"@),
        ),
{
    let dir: &str = match runtime_dir {
        Some(dir) => dir,
        None => "/tmp",
    };
    join(dir.as_bytes(), "mpvremote.state".as_bytes())
}

/// What the running daemon records.
pub open spec fn state_json(port: u16, pid: u32) -> JsonView {
    object2("port"@, uint_json(port as u64), "pid"@, uint_json(pid as u64))
}

/// What the running daemon records.
pub fn state_value(port: u16, pid: u32) -> (r: Json)
    ensures
        r@ == state_json(port, pid),
{
    two_members("port", uint_value(port as u64), "pid", uint_value(pid as u64))
}

/// A daemon as its record describes it.
#[derive(Clone, Copy, PartialEq, Eq, Structural, Debug)]
pub struct Daemon {
    pub port: u64,
    pub pid: u64,
}

/// The number in a member of the record, zero if there is none.
pub open spec fn recorded(state: JsonView, name: Seq<char>) -> u64 {
    match state.field_uint(name) {
        Some(n) => n,
        None => 0,
    }
}

/// The daemon that a record describes.
pub open spec fn described(state: JsonView) -> Daemon {
    Daemon { port: recorded(state, "port"@), pid: recorded(state, "pid"@) }
}

/// The daemon that a record describes.
pub fn describe(state: &Json) -> (r: Daemon)
    ensures
        r == described(state@),
{
    let port: u64 = match state.get_uint("port") {
        Some(n) => n,
        None => 0,
    };
    let pid: u64 = match state.get_uint("pid") {
        Some(n) => n,
        None => 0,
    };
    Daemon { port, pid }
}

/// A daemon is found again from what it records.
pub proof fn law_record_reads_back(port: u16, pid: u32)
    ensures
        described(state_json(port, pid)) == (Daemon { port: port as u64, pid: pid as u64 }),
{
    reveal_strlit("port");
    reveal_strlit("pid");
    assert("port"@.len() == 4 && "pid"@.len() == 3);
}

/// Looks for a file with `std::path::Path::exists`. Nothing is claimed of the answer: it
/// depends on what is on disk.
#[verifier::external_body]
fn path_exists(path: &str) -> (r: bool) {
    std::path::Path::new(path).exists()
}

/// Asks `look` about a path.
fn ask<F: Fn(&str) -> bool>(look: F, path: &str) -> (r: bool)
    requires
        look.requires((path,)),
    ensures
        look.ensures((path,), r),
{
    look(path)
}

/// Whether `answer` is what the disk says to the question whether there is a file at
/// `path`.
pub closed spec fn disk_says(path: Seq<char>, answer: bool) -> bool {
    exists|p: &str| #[trigger] path_exists.ensures((p,), answer) && p@ == path
}

/// Where the kernel keeps what it knows of a process.
pub open spec fn proc_path(pid: u32) -> Seq<char> {
    "/proc/"@ + decimal(pid as nat)
}

/// Whether a process with this number runs: whether the kernel has a directory for it.
pub fn is_running(pid: u32) -> (r: bool)
    ensures
        disk_says(proc_path(pid), r),
{
    let mut path: String = "/proc/".to_owned();
    push_decimal(&mut path, pid as u64);
    ask(path_exists, path.as_str())
}

/// What is said if there is no record that can be read.
pub open spec fn no_state_text(path: Seq<u8>) -> Seq<char> {
    "mpvremote is not running (no state file at "@ + lossy(path) + ")"@
}

/// What is said if the daemon of the record is gone.
pub open spec fn stale_text(pid: u64) -> Seq<char> {
    "mpvremote is not running (stale state file, pid "@ + decimal(pid as nat) + ")"@
}

/// What is said if the daemon runs, but no address of the machine is known.
pub open spec fn no_address_text(port: u64) -> Seq<char> {
    "mpvremote is running on port "@ + decimal(port as nat)
        + ", but no LAN address was found"@
}

/// A result whose error is a text.
pub open spec fn daemon_view(r: Result<Daemon, String>) -> Result<Daemon, Seq<char>> {
    match r {
        Ok(d) => Ok(d),
        Err(e) => Err(e@),
    }
}

/// Whether a number can be that of a process. Zero is not, nor is what needs more than 32
/// bits.
pub open spec fn possible_pid(pid: u64) -> bool {
    0 < pid <= u32::MAX
}

/// Whether a daemon is there, if its process runs or does not.
pub open spec fn checked(daemon: Daemon, running: bool) -> Result<Daemon, Seq<char>> {
    if possible_pid(daemon.pid) && running {
        Ok(daemon)
    } else {
        Err(stale_text(daemon.pid))
    }
}

/// Whether a daemon is there, if its process runs or does not.
pub fn check_daemon(daemon: Daemon, running: bool) -> (r: Result<Daemon, String>)
    ensures
        daemon_view(r) == checked(daemon, running),
{
    if 0 < daemon.pid && daemon.pid <= 0xffff_ffff && running {
        Ok(daemon)
    } else {
        let mut text: String = "mpvremote is not running (stale state file, pid ".to_owned();
        push_decimal(&mut text, daemon.pid);
        Err(text.concat(")"))
    }
}

/// Finds the running daemon. `state` is its record, or nothing if the record at `path`
/// cannot be read or is not JSON.
pub fn find_daemon(state: Option<&Json>, path: &[u8]) -> (r: Result<Daemon, String>)
    ensures
        match state {
            None => daemon_view(r) == Err::<Daemon, Seq<char>>(no_state_text(path@)),
            Some(s) => {
                let daemon = described(s@);
                if possible_pid(daemon.pid) {
                    exists|running: bool|
                        #[trigger] disk_says(proc_path(daemon.pid as u32), running)
                            && daemon_view(r) == checked(daemon, running)
                } else {
                    daemon_view(r) == Err::<Daemon, Seq<char>>(stale_text(daemon.pid))
                }
            },
        },
{
    match state {
        Some(s) => {
            let daemon: Daemon = describe(s);
            if daemon.pid == 0 || daemon.pid > 0xffff_ffff {
                return check_daemon(daemon, false);
            }
            let running: bool = is_running(daemon.pid as u32);
            check_daemon(daemon, running)
        },
        None => {
            let text: String = "mpvremote is not running (no state file at ".to_owned();
            let place: String = to_text(path);
            Err(text.concat(place.as_str()).concat(")"))
        },
    }
}

/// The address of the web page.
pub open spec fn url(ip: Seq<char>, port: u64) -> Seq<char> {
    "http://"@ + ip + ":"@ + decimal(port as nat)
}

/// The address of the web page.
pub fn url_text(ip: &str, port: u64) -> (r: String)
    ensures
        r@ == url(ip@, port),
{
    let mut out: String = "http://".to_owned().concat(ip).concat(":");
    push_decimal(&mut out, port);
    out
}

/// A line with an address at which the page is reached.
pub open spec fn url_line(ip: Seq<char>, port: u64) -> Seq<char> {
    "  "@ + url(ip, port) + "\n"@
}

/// A line for each address at which the page is reached.
pub open spec fn url_lines(ips: Seq<Seq<char>>, port: u64) -> Seq<char>
    decreases ips.len(),
{
    if ips.len() == 0 {
        Seq::empty()
    } else {
        url_lines(ips.drop_last(), port) + url_line(ips.last(), port)
    }
}

/// Appends a line for each address.
fn push_url_lines(out: String, ips: &[String], port: u64) -> (r: String)
    ensures
        r@ == out@ + url_lines(texts(ips@), port),
{
    let ghost all = texts(ips@);
    let mut text: String = out;
    let mut i: usize = 0;
    assert(text@ == out@ + url_lines(all.take(0), port));
    while i < ips.len()
        invariant
            i <= ips@.len(),
            all == texts(ips@),
            text@ == out@ + url_lines(all.take(i as int), port),
        decreases ips@.len() - i,
    {
        proof {
            assert(all.take(i + 1).drop_last() == all.take(i as int));
            assert(all.take(i + 1).last() == ips@[i as int]@);
        }
        let page: String = url_text(ips[i].as_str(), port);
        let line: String = "  ".to_owned().concat(page.as_str()).concat("\n");
        text = text.concat(line.as_str());
        assert(text@ == out@ + url_lines(all.take(i + 1), port));
        i += 1;
    }
    assert(all.take(all.len() as int) == all);
    text
}

/// What is said of a running daemon. `code` is a QR code of the first address.
pub open spec fn report_text(daemon: Daemon, ips: Seq<Seq<char>>, code: Seq<char>) -> Seq<char> {
    "mpvremote running (pid "@ + decimal(daemon.pid as nat) + ")\n"@ + url_lines(
        ips,
        daemon.port,
    ) + "\n"@ + code + "\n  "@ + url(ips[0], daemon.port) + "\n"@
}

/// What is said of a running daemon, if `code` is the QR code of its first address.
pub fn report_with(daemon: Daemon, ips: &[String], code: &str) -> (r: Result<String, String>)
    ensures
        match r {
            Ok(text) => ips@.len() > 0 && text@ == report_text(daemon, texts(ips@), code@),
            Err(text) => ips@.len() == 0 && text@ == no_address_text(daemon.port),
        },
{
    if ips.len() == 0 {
        let mut text: String = "mpvremote is running on port ".to_owned();
        push_decimal(&mut text, daemon.port);
        return Err(text.concat(", but no LAN address was found"));
    }
    let mut head: String = "mpvremote running (pid ".to_owned();
    push_decimal(&mut head, daemon.pid);
    let text: String = push_url_lines(head.concat(")\n"), ips, daemon.port);
    let page: String = url_text(ips[0].as_str(), daemon.port);
    assert(texts(ips@)[0] == ips@[0]@);
    Ok(text.concat("\n").concat(code).concat("\n  ").concat(page.as_str()).concat("\n"))
}

/// What is said of a running daemon on a machine with the given addresses.
pub fn report(daemon: Daemon, ips: &[String]) -> (r: Result<String, String>)
    ensures
        match r {
            Ok(text) => ips@.len() > 0 && text@ == report_text(
                daemon,
                texts(ips@),
                shown_code(qr_rendering(url(texts(ips@)[0], daemon.port))),
            ),
            Err(text) => ips@.len() == 0 && text@ == no_address_text(daemon.port),
        },
{
    if ips.len() == 0 {
        return report_with(daemon, ips, "");
    }
    assert(texts(ips@)[0] == ips@[0]@);
    let code: String = qr(url_text(ips[0].as_str(), daemon.port).as_str());
    report_with(daemon, ips, code.as_str())
}

/// What the daemon says when it starts. `code` is a QR code of the first address, if it
/// is to be shown.
pub open spec fn banner_text(
    port: u16,
    ips: Seq<Seq<char>>,
    code: Option<Seq<char>>,
) -> Seq<char> {
    "mpvremote listening on port "@ + decimal(port as nat) + " (all interfaces)\n"@ + url_lines(
        ips,
        port as u64,
    ) + match code {
        Some(c) => "\n"@ + c + "\n"@,
        None => Seq::empty(),
    } + "run `mpvremote status` for the address and a QR code\n"@
}

/// What the daemon says when it starts, with a QR code or without.
pub fn banner_with(port: u16, ips: &[String], code: Option<&str>) -> (r: String)
    ensures
        r@ == banner_text(
            port,
            texts(ips@),
            match code {
                Some(c) => Some(c@),
                None => None,
            },
        ),
{
    let mut head: String = "mpvremote listening on port ".to_owned();
    push_decimal(&mut head, port as u64);
    let text: String = push_url_lines(head.concat(" (all interfaces)\n"), ips, port as u64);
    let text2: String = match code {
        Some(c) => text.concat("\n").concat(c).concat("\n"),
        None => text,
    };
    let last: &str = "run `mpvremote status` for the address and a QR code\n";
    let out: String = text2.concat(last);
    assert(out@ == banner_text(
        port,
        texts(ips@),
        match code {
            Some(c) => Some(c@),
            None => None,
        },
    ));
    out
}

/// What the daemon says when it starts on a machine with the given addresses. The QR code
/// is for somebody who watches.
pub fn banner(port: u16, ips: &[String], watched: bool) -> (r: String)
    ensures
        r@ == banner_text(
            port,
            texts(ips@),
            if watched && ips@.len() > 0 {
                Some(shown_code(qr_rendering(url(texts(ips@)[0], port as u64))))
            } else {
                None
            },
        ),
{
    if watched && ips.len() > 0 {
        assert(texts(ips@)[0] == ips@[0]@);
        let code: String = qr(url_text(ips[0].as_str(), port as u64).as_str());
        banner_with(port, ips, Some(code.as_str()))
    } else {
        banner_with(port, ips, None)
    }
}

/// What occurs in a text occurs in any text around it.
proof fn lemma_occurs_within(part: Seq<char>, before: Seq<char>, s: Seq<char>, after: Seq<char>)
    requires
        occurs(part, s),
    ensures
        occurs(part, before + s + after),
{
    let i = choose|i: int|
        0 <= i <= s.len() - part.len() && #[trigger] s.subrange(i, i + part.len()) == part;
    let whole = before + s + after;
    let k = before.len() + i;
    assert(whole.subrange(k, k + part.len()) == s.subrange(i, i + part.len()));
}

/// Every address has its line.
proof fn lemma_url_line(ips: Seq<Seq<char>>, port: u64, i: int)
    requires
        0 <= i < ips.len(),
    ensures
        occurs(url_line(ips[i], port), url_lines(ips, port)),
    decreases ips.len(),
{
    let line = url_line(ips.last(), port);
    let before = url_lines(ips.drop_last(), port);
    let none = Seq::<char>::empty();
    if i < ips.len() - 1 {
        lemma_url_line(ips.drop_last(), port, i);
        lemma_occurs_within(url_line(ips[i], port), none, before, line);
        assert(none + before + line =~= before + line);
    } else {
        lemma_occurs_in_itself(line);
        lemma_occurs_within(line, before, line, none);
        assert(before + line + none =~= before + line);
    }
}

/// A text occurs in itself.
proof fn lemma_occurs_in_itself(s: Seq<char>)
    ensures
        occurs(s, s),
{
    let at: int = 0;
    assert(s.subrange(at, at + s.len()) == s);
}

/// The report names every address of the machine, and the start message does too.
pub proof fn law_every_address_is_named(
    daemon: Daemon,
    port: u16,
    ips: Seq<Seq<char>>,
    code: Seq<char>,
    shown: Option<Seq<char>>,
    i: int,
)
    requires
        0 <= i < ips.len(),
    ensures
        occurs(url_line(ips[i], daemon.port), report_text(daemon, ips, code)),
        occurs(url_line(ips[i], port as u64), banner_text(port, ips, shown)),
{
    lemma_url_line(ips, daemon.port, i);
    lemma_url_line(ips, port as u64, i);
    let head = "mpvremote running (pid "@ + decimal(daemon.pid as nat) + ")\n"@;
    let tail = "\n"@ + code + "\n  "@ + url(ips[0], daemon.port) + "\n"@;
    let lines = url_lines(ips, daemon.port);
    lemma_occurs_within(url_line(ips[i], daemon.port), head, lines, tail);
    assert(head + lines + tail == report_text(daemon, ips, code));
    let head2 = "mpvremote listening on port "@ + decimal(port as nat) + " (all interfaces)\n"@;
    let tail2 = match shown {
        Some(c) => "\n"@ + c + "\n"@,
        None => Seq::empty(),
    } + "run `mpvremote status` for the address and a QR code\n"@;
    let lines2 = url_lines(ips, port as u64);
    lemma_occurs_within(url_line(ips[i], port as u64), head2, lines2, tail2);
    assert(head2 + lines2 + tail2 == banner_text(port, ips, shown));
}

/// The record of a daemon is an object with its port and its process number and nothing
/// else.
pub proof fn law_the_record_holds_port_and_pid(port: u16, pid: u32)
    ensures
        state_json(port, pid) matches JsonView::Object(m) && m.dom() == set!["port"@, "pid"@]
            && m["port"@] == JsonView::Number(Number::PosInt(port as u64)) && m["pid"@]
            == JsonView::Number(Number::PosInt(pid as u64)),
{
    reveal_strlit("port");
    reveal_strlit("pid");
    assert("port"@.len() == 4 && "pid"@.len() == 3);
    assert(state_json(port, pid)->Object_0.dom() == set!["port"@, "pid"@]);
}

/// Every record is read by its members alone, whatever else it holds: a number stands for
/// itself, and zero stands for anything that is no unsigned number.
pub proof fn law_records_are_read_by_their_members(state: JsonView, n: u64)
    ensures
        state.field("port"@) == Some(JsonView::Number(Number::PosInt(n))) ==> described(state).port
            == n,
        state.field("pid"@) == Some(JsonView::Number(Number::PosInt(n))) ==> described(state).pid
            == n,
        !(state.field("port"@) matches Some(JsonView::Number(Number::PosInt(_)))) ==> described(
            state,
        ).port == 0,
        !(state.field("pid"@) matches Some(JsonView::Number(Number::PosInt(_)))) ==> described(
            state,
        ).pid == 0,
{
}

/// A daemon is there exactly if its process runs and its number is one that a process can
/// have, from 1 to 4294967295; and then it is the one of the record. Otherwise the record is
/// stale, and the message gives its number.
pub proof fn law_only_a_running_daemon_is_there(daemon: Daemon, running: bool)
    ensures
        running && 1 <= daemon.pid <= 4294967295 ==> checked(daemon, running) == Ok::<
            Daemon,
            Seq<char>,
        >(daemon),
        !(running && 1 <= daemon.pid <= 4294967295) ==> checked(daemon, running) == Err::<
            Daemon,
            Seq<char>,
        >("mpvremote is not running (stale state file, pid "@ + decimal(daemon.pid as nat) + ")"@),
        possible_pid(daemon.pid) <==> 1 <= daemon.pid <= 4294967295,
{
}

/// What is asked of the disk is the directory of the process, and an answer is one that
/// the disk gave to this question.
proof fn law_the_disk_is_asked(pid: u32, answer: bool)
    requires
        disk_says(proc_path(pid), answer),
    ensures
        exists|p: &str|
            #[trigger] path_exists.ensures((p,), answer) && p@ == "/proc/"@ + decimal(pid as nat),
{
}

/// The messages of a failed status name what is missing: the place of the record, the
/// number of the process, or the port. An address is that of a web page on the port.
pub proof fn law_messages_name_what_is_missing(
    path: Seq<u8>,
    pid: u64,
    port: u64,
    ip: Seq<char>,
    process: u32,
)
    ensures
        no_state_text(path) == "mpvremote is not running (no state file at "@ + lossy(path) + ")"@,
        stale_text(pid) == "mpvremote is not running (stale state file, pid "@ + decimal(
            pid as nat,
        ) + ")"@,
        no_address_text(port) == "mpvremote is running on port "@ + decimal(port as nat)
            + ", but no LAN address was found"@,
        url(ip, port) == "http://"@ + ip + ":"@ + decimal(port as nat),
        proc_path(process) == "/proc/"@ + decimal(process as nat),
{
}

/// Each address has its own line, in order: the lines of some addresses and then others are
/// those of the first and then those of the others.
pub proof fn law_each_address_has_its_line(a: Seq<Seq<char>>, b: Seq<Seq<char>>, port: u64)
    ensures
        url_lines(a + b, port) == url_lines(a, port) + url_lines(b, port),
        url_lines(Seq::empty(), port) == Seq::<char>::empty(),
        a.len() == 1 ==> url_lines(a, port) == "  "@ + ("http://"@ + a[0] + ":"@ + decimal(
            port as nat,
        )) + "\n"@,
    decreases b.len(),
{
    if a.len() == 1 {
        assert(a.drop_last() == Seq::<Seq<char>>::empty());
        assert(url_lines(a.drop_last(), port) == Seq::<char>::empty());
        assert(url_lines(a, port) == url_line(a[0], port));
    }
    if b.len() == 0 {
        assert(a + b == a);
        assert(url_lines(a, port) + url_lines(b, port) == url_lines(a, port));
    } else {
        law_each_address_has_its_line(a, b.drop_last(), port);
        assert((a + b).drop_last() == a + b.drop_last());
        assert((a + b).last() == b.last());
        assert(url_lines(a + b, port) == url_lines(a, port) + url_lines(b, port));
    }
}

/// The report begins with the process, goes on with the line of each address, and ends with
/// the code and the first address under it. The start message begins with the port, goes on
/// with the lines, shows the code if there is one, and ends with where to find it again.
pub proof fn law_reports_are_complete(
    daemon: Daemon,
    port: u16,
    ips: Seq<Seq<char>>,
    code: Seq<char>,
)
    ensures
        ({
            let head = "mpvremote running (pid "@ + decimal(daemon.pid as nat) + ")\n"@;
            let first = "http://"@ + ips[0] + ":"@ + decimal(daemon.port as nat);
            let tail = "\n"@ + code + "\n  "@ + first + "\n"@;
            report_text(daemon, ips, code) == head + url_lines(ips, daemon.port) + tail
        }),
        ({
            let head = "mpvremote listening on port "@ + decimal(port as nat)
                + " (all interfaces)\n"@;
            let tail = "run `mpvremote status` for the address and a QR code\n"@;
            let lines = url_lines(ips, port as u64);
            &&& banner_text(port, ips, None) == head + lines + tail
            &&& banner_text(port, ips, Some(code)) == head + lines + ("\n"@ + code + "\n"@) + tail
        }),
{
    let head = "mpvremote running (pid "@ + decimal(daemon.pid as nat) + ")\n"@;
    let tail = "\n"@ + code + "\n  "@ + url(ips[0], daemon.port) + "\n"@;
    assert(report_text(daemon, ips, code) == head + url_lines(ips, daemon.port) + tail);
    let start = "mpvremote listening on port "@ + decimal(port as nat) + " (all interfaces)\n"@;
    let last = "run `mpvremote status` for the address and a QR code\n"@;
    let lines = url_lines(ips, port as u64);
    assert(banner_text(port, ips, None) == start + lines + last);
    assert(banner_text(port, ips, Some(code)) == start + lines + ("\n"@ + code + "\n"@) + last);
}

/// A result stands for what it holds.
pub proof fn law_results_stand_for_themselves(daemon: Daemon, e: String)
    ensures
        daemon_view(Ok(daemon)) == Ok::<Daemon, Seq<char>>(daemon),
        daemon_view(Err(e)) == Err::<Daemon, Seq<char>>(e@),
{
}

} // verus!
