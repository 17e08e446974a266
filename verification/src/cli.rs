//! The command line and the settings.

use vstd::prelude::*;

use crate::text::{decimal, opt_text, parse_u16, parsed_uint, push_decimal, same, texts};

verus! {

/// The port without any setting.
pub const DEFAULT_PORT: u16 = 8000;

/// What the program is asked to do.
#[derive(Clone, Copy, PartialEq, Eq, Structural, Debug)]
pub enum Mode {
    /// Run the server.
    Serve,
    /// Say where the running server is reached.
    Status,
    /// Say how the program is used.
    Help,
}

/// What the first argument after the name of the program asks for.
pub open spec fn mode_of(args: Seq<Seq<char>>) -> Mode {
    if args.len() >= 2 && (args[1] == "status"@ || args[1] == "qr"@) {
        Mode::Status
    } else if args.len() >= 2 && (args[1] == "--help"@ || args[1] == "-h"@) {
        Mode::Help
    } else {
        Mode::Serve
    }
}

/// What the arguments ask for.
pub fn mode(args: &[String]) -> (r: Mode)
    ensures
        r == mode_of(texts(args@)),
{
    if args.len() < 2 {
        return Mode::Serve;
    }
    assert(texts(args@)[1] == args@[1]@);
    let word: &str = args[1].as_str();
    if same(word, "status") || same(word, "qr") {
        Mode::Status
    } else if same(word, "--help") || same(word, "-h") {
        Mode::Help
    } else {
        Mode::Serve
    }
}

/// How the program is used.
pub fn help() -> (r: String)
    ensures
        r@ == "mpvremote               run the server (default)\n"@
            + "mpvremote status | qr   show the running daemon's address + QR code\n"@
            + "\noptions: --port <n>   (or MPVREMOTE_PORT, MPVREMOTE_SOCKET, MPVREMOTE_ROOT)\n"@,
{
    let text: String = "mpvremote               run the server (default)\n".to_owned();
    text.concat(
        "mpvremote status | qr   show the running daemon's address + QR code\n",
    ).concat("\noptions: --port <n>   (or MPVREMOTE_PORT, MPVREMOTE_SOCKET, MPVREMOTE_ROOT)\n")
}

/// Whether an argument announces the port.
pub open spec fn is_port_flag(arg: Seq<char>) -> bool {
    arg == "--port"@ || arg == "-p"@
}

/// Whether the first argument that announces the port is the argument `i`.
pub open spec fn port_flag_at(args: Seq<Seq<char>>, i: int) -> bool {
    &&& 0 <= i < args.len()
    &&& is_port_flag(args[i])
    &&& forall|j: int| 0 <= j < i ==> !is_port_flag(#[trigger] args[j])
}

/// A port that is written as a number.
pub open spec fn written_port(s: Seq<char>) -> Option<u16> {
    match parsed_uint(s, 65535) {
        Some(n) => Some(n as u16),
        None => None,
    }
}

/// The port on the command line: the number behind the first argument that announces it.
pub open spec fn flag_port(args: Seq<Seq<char>>) -> Option<u16> {
    if exists|i: int| port_flag_at(args, i) {
        let i = choose|i: int| port_flag_at(args, i);
        if i + 1 < args.len() {
            written_port(args[i + 1])
        } else {
            None
        }
    } else {
        None
    }
}

/// The port in the environment, if it is set to a number.
pub open spec fn setting_port(setting: Option<Seq<char>>) -> Option<u16> {
    match setting {
        Some(s) => written_port(s),
        None => None,
    }
}

/// The port to listen on: that of the command line, or else that of the environment, or
/// else the usual one.
pub open spec fn chosen_port(args: Seq<Seq<char>>, setting: Option<Seq<char>>) -> u16 {
    match flag_port(args) {
        Some(n) => n,
        None => match setting_port(setting) {
            Some(n) => n,
            None => DEFAULT_PORT,
        },
    }
}

/// The port on the command line.
fn port_flag(args: &[String]) -> (r: Option<u16>)
    ensures
        r == flag_port(texts(args@)),
{
    let ghost all = texts(args@);
    let mut i: usize = 0;
    while i < args.len()
        invariant
            i <= args@.len(),
            all == texts(args@),
            forall|j: int| 0 <= j < i ==> !is_port_flag(#[trigger] all[j]),
        decreases args@.len() - i,
    {
        assert(all[i as int] == args@[i as int]@);
        if same(args[i].as_str(), "--port") || same(args[i].as_str(), "-p") {
            assert(port_flag_at(all, i as int));
            let ghost k = choose|k: int| port_flag_at(all, k);
            assert(k == i) by {
                if k < i {
                    assert(!is_port_flag(all[k]));
                } else if k > i {
                    assert(!is_port_flag(all[i as int]));
                }
            }
            if args.len() - i < 2 {
                return None;
            }
            assert(all[i + 1] == args@[i + 1]@);
            return parse_u16(args[i + 1].as_str());
        }
        i += 1;
    }
    None
}

/// The port to listen on. `setting` is what the environment says.
pub fn port(args: &[String], setting: Option<String>) -> (r: u16)
    ensures
        r == chosen_port(texts(args@), opt_text(setting)),
{
    if let Some(n) = port_flag(args) {
        return n;
    }
    if let Some(s) = setting {
        if let Some(n) = parse_u16(s.as_str()) {
            return n;
        }
    }
    DEFAULT_PORT
}

/// Where the socket of mpv is. `setting` is what the environment says.
pub fn socket(setting: Option<String>) -> (r: String)
    ensures
        r@ == match opt_text(setting) {
            Some(s) => s,
            None => "/tmp/mpvremote.sock"@,
        },
{
    match setting {
        Some(s) => s,
        None => "/tmp/mpvremote.sock".to_owned(),
    }
}

/// The directory to which the file browser is confined: what the environment says, or
/// else the home directory, if there is one.
pub fn root(setting: Option<String>, home: Option<String>) -> (r: Option<String>)
    ensures
        r == match setting {
            Some(s) => Some(s),
            None => home,
        },
{
    match setting {
        Some(s) => Some(s),
        None => home,
    }
}

/// Where the server listens: on the port, for every address of the machine.
pub fn bind_address(port: u16) -> (r: String)
    ensures
        r@ == "0.0.0.0:"@ + decimal(port as nat),
{
    let mut out: String = "0.0.0.0:".to_owned();
    push_decimal(&mut out, port as u64);
    out
}

/// A port on the command line wins over one in the environment, whatever that is, and one
/// in the environment wins over the usual one.
pub proof fn law_port_precedence(args: Seq<Seq<char>>, setting: Option<Seq<char>>)
    ensures
        flag_port(args) matches Some(n) ==> chosen_port(args, setting) == n,
        flag_port(args) is None ==> (setting_port(setting) matches Some(n) ==> chosen_port(
            args,
            setting,
        ) == n),
        flag_port(args) is None && setting_port(setting) is None ==> chosen_port(args, setting)
            == DEFAULT_PORT,
{
}

/// A port that is written in decimal behind `--port` is the port to listen on, whatever
/// the other settings say.
pub proof fn law_written_port_is_used(
    args: Seq<Seq<char>>,
    i: int,
    n: u16,
    setting: Option<Seq<char>>,
)
    requires
        port_flag_at(args, i),
        i + 1 < args.len(),
        args[i + 1] == decimal(n as nat),
    ensures
        chosen_port(args, setting) == n,
{
    crate::text::law_decimal_reads_back(n as nat, 65535);
    let k = choose|k: int| port_flag_at(args, k);
    assert(port_flag_at(args, k));
    assert(k == i) by {
        if k < i {
            assert(!is_port_flag(args[k]));
        } else if k > i {
            assert(!is_port_flag(args[i]));
        }
    }
}

/// Only the first argument decides what is asked for: `status` and `qr` for the status,
/// `--help` and `-h` for help, and everything else, or nothing, for the server.
pub proof fn law_the_first_argument_decides(name: Seq<char>, word: Seq<char>, rest: Seq<Seq<char>>)
    ensures
        mode_of(seq![name, word] + rest) == Mode::Status <==> word == "status"@ || word == "qr"@,
        mode_of(seq![name, word] + rest) == Mode::Help <==> word == "--help"@ || word == "-h"@,
        mode_of(seq![name]) == Mode::Serve,
        mode_of(Seq::empty()) == Mode::Serve,
{
    let args = seq![name, word] + rest;
    assert(args[1] == word);
    reveal_strlit("status");
    reveal_strlit("qr");
    reveal_strlit("--help");
    reveal_strlit("-h");
    assert("status"@.len() == 6 && "qr"@.len() == 2 && "--help"@.len() == 6 && "-h"@.len() == 2);
    assert("status"@[0] == 's' && "--help"@[0] == '-' && "qr"@[0] == 'q' && "-h"@[0] == '-');
}

/// The port on the command line is the number behind the first `--port` or `-p`, wherever
/// that stands and whatever follows. There is none without such an argument, without a
/// number behind it, or with a number that is no port.
pub proof fn law_the_port_follows_its_flag(
    before: Seq<Seq<char>>,
    flag: Seq<char>,
    word: Seq<char>,
    after: Seq<Seq<char>>,
)
    requires
        flag == "--port"@ || flag == "-p"@,
        forall|i: int|
            0 <= i < before.len() ==> #[trigger] before[i] != "--port"@ && before[i] != "-p"@,
    ensures
        flag_port(before) is None,
        flag_port(before.push(flag)) is None,
        flag_port(before.push(flag).push(word) + after) == match parsed_uint(word, 65535) {
            Some(n) => Some(n as u16),
            None => None::<u16>,
        },
{
    let args = before.push(flag).push(word) + after;
    let short = before.push(flag);
    let k = before.len() as int;
    assert forall|i: int| !port_flag_at(before, i) by {
        if port_flag_at(before, i) {
            assert(before[i] != "--port"@ && before[i] != "-p"@);
        }
    }
    assert forall|j: int| 0 <= j < k implies !is_port_flag(#[trigger] args[j]) && !is_port_flag(
        short[j],
    ) by {
        assert(args[j] == before[j] && short[j] == before[j]);
    }
    assert(args[k] == flag && short[k] == flag && args[k + 1] == word);
    assert forall|j: int| 0 <= j < k implies !is_port_flag(#[trigger] short[j]) by {
        assert(args[j] == short[j]);
    }
    assert(port_flag_at(args, k));
    assert(port_flag_at(short, k));
    let i = choose|i: int| port_flag_at(args, i);
    assert(i == k) by {
        if i < k {
            assert(!is_port_flag(args[i]));
        } else if i > k {
            assert(!is_port_flag(args[k]));
        }
    }
    let j = choose|j: int| port_flag_at(short, j);
    assert(j == k) by {
        if j < k {
            assert(!is_port_flag(short[j]));
        } else if j > k {
            assert(!is_port_flag(short[k]));
        }
    }
}

/// Without a port on the command line, the one in the environment is taken if it is a
/// number up to 65535, and 8000 if it is not or is not set.
pub proof fn law_the_setting_stands_in_for_the_flag(args: Seq<Seq<char>>, word: Seq<char>)
    requires
        flag_port(args) is None,
    ensures
        chosen_port(args, Some(word)) == match parsed_uint(word, 65535) {
            Some(n) => n as u16,
            None => 8000u16,
        },
        chosen_port(args, None) == 8000,
{
}

} // verus!
