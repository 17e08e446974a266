//! The addresses at which the machine is reached on its network.

use vstd::prelude::*;

use crate::text::{
    begins_with, chars_of, fields, fields_of, lemma_split_nonempty, lossy, opt_text, string_of,
    texts, to_text, views, words, words_of,
};

verus! {

/// Whether a network device is a tunnel or a bridge between containers, so that a phone
/// cannot reach its address.
pub open spec fn is_virtual(device: Seq<char>) -> bool {
    ||| "tun"@.is_prefix_of(device)
    ||| "docker"@.is_prefix_of(device)
    ||| "br-"@.is_prefix_of(device)
}

/// Whether the first word `inet` after the name of the device is the word `i`.
pub open spec fn inet_at(line: Seq<Seq<char>>, i: int) -> bool {
    &&& 2 <= i < line.len()
    &&& line[i] == "inet"@
    &&& forall|j: int| 2 <= j < i ==> #[trigger] line[j] != "inet"@
}

/// The address in the words of a line that `ip -o addr` prints: the device is the second
/// word, and the address follows the word `inet`, up to a slash. Virtual devices have no
/// address here.
pub open spec fn address_in(line: Seq<Seq<char>>) -> Option<Seq<char>> {
    if line.len() >= 2 && !is_virtual(line[1]) && exists|i: int| inet_at(line, i) {
        let i = choose|i: int| inet_at(line, i);
        if i + 1 < line.len() {
            Some(fields(line[i + 1], '/')[0])
        } else {
            None
        }
    } else {
        None
    }
}

/// The addresses in some lines, in order.
pub open spec fn addresses_in(lines: Seq<Seq<char>>) -> Seq<Seq<char>>
    decreases lines.len(),
{
    if lines.len() == 0 {
        Seq::empty()
    } else {
        let before = addresses_in(lines.drop_last());
        match address_in(words(lines.last())) {
            Some(address) => before.push(address),
            None => before,
        }
    }
}

/// Whether a network device is a tunnel or a bridge between containers.
fn virtual_device(device: &[char]) -> (r: bool)
    ensures
        r == is_virtual(device@),
{
    begins_with(device, "tun") || begins_with(device, "docker") || begins_with(device, "br-")
}

/// Whether some characters are those of a string.
fn spells(chars: &[char], s: &str) -> (r: bool)
    ensures
        r == (chars@ == s@),
{
    let n: usize = s.unicode_len();
    if chars.len() != n {
        return false;
    }
    let r: bool = begins_with(chars, s);
    assert(s@.is_prefix_of(chars@) ==> s@ == chars@);
    assert(s@ == chars@ ==> s@.is_prefix_of(chars@));
    r
}

/// The address in the words of a line.
fn address(line: &Vec<Vec<char>>) -> (r: Option<String>)
    ensures
        opt_text(r) == address_in(views(line@)),
{
    let ghost ws = views(line@);
    if line.len() < 2 || virtual_device(line[1].as_slice()) {
        return None;
    }
    let mut i: usize = 2;
    while i < line.len()
        invariant
            2 <= i <= line@.len(),
            ws == views(line@),
            !is_virtual(ws[1]),
            forall|j: int| 2 <= j < i ==> #[trigger] ws[j] != "inet"@,
        decreases line@.len() - i,
    {
        assert(ws[i as int] == line@[i as int]@);
        if spells(line[i].as_slice(), "inet") {
            assert(inet_at(ws, i as int));
            let ghost k = choose|k: int| inet_at(ws, k);
            assert(k == i) by {
                if k < i {
                    assert(ws[k] != "inet"@);
                } else if k > i {
                    assert(ws[i as int] != "inet"@);
                }
            }
            if line.len() - i < 2 {
                return None;
            }
            assert(ws[i + 1] == line@[i + 1]@);
            let parts: Vec<Vec<char>> = fields_of(line[i + 1].as_slice(), '/');
            proof {
                lemma_split_nonempty(ws[i + 1], |x: char| x == '/');
                assert(views(parts@).len() == parts@.len());
                assert(views(parts@)[0] == parts@[0]@);
            }
            return Some(string_of(parts[0].as_slice()));
        }
        i += 1;
    }
    None
}

/// The addresses in what `ip -4 -o addr show scope global` prints.
pub fn addresses(text: &str) -> (r: Vec<String>)
    ensures
        texts(r@) == addresses_in(fields(text@, '\n')),
{
    let chars: Vec<char> = chars_of(text);
    let lines: Vec<Vec<char>> = fields_of(chars.as_slice(), '\n');
    let ghost ls = views(lines@);
    let mut out: Vec<String> = Vec::new();
    let mut i: usize = 0;
    assert(texts(out@) == addresses_in(ls.take(0)));
    while i < lines.len()
        invariant
            i <= lines@.len(),
            ls == views(lines@),
            texts(out@) == addresses_in(ls.take(i as int)),
        decreases lines@.len() - i,
    {
        let ghost out0 = out@;
        proof {
            assert(ls.take(i + 1).drop_last() == ls.take(i as int));
            assert(ls.take(i + 1).last() == lines@[i as int]@);
        }
        let line: Vec<Vec<char>> = words_of(lines[i].as_slice());
        let found: Option<String> = address(&line);
        if let Some(a) = found {
            out.push(a);
            assert(texts(out@) == texts(out0).push(a@));
        }
        i += 1;
    }
    assert(ls.take(ls.len() as int) == ls);
    out
}

/// The addresses of the machine: those in what `ip -4 -o addr show scope global` printed,
/// and none if it could not be run.
pub fn local_ipv4s(output: Option<Vec<u8>>) -> (r: Vec<String>)
    ensures
        texts(r@) == match output {
            Some(bytes) => addresses_in(fields(lossy(bytes@), '\n')),
            None => Seq::empty(),
        },
{
    match output {
        Some(bytes) => addresses(to_text(bytes.as_slice()).as_str()),
        None => {
            let none: Vec<String> = Vec::new();
            assert(texts(none@) == Seq::<Seq<char>>::empty());
            none
        },
    }
}

/// Every address comes from a line of its own, in the order of the lines, and that line is
/// not about a tunnel or a bridge.
pub proof fn law_addresses_are_reachable(lines: Seq<Seq<char>>, i: int)
    requires
        0 <= i < addresses_in(lines).len(),
    ensures
        exists|k: int|
            0 <= k < lines.len() && address_in(words(#[trigger] lines[k])) == Some(
                addresses_in(lines)[i],
            ) && !is_virtual(words(lines[k])[1]) && addresses_in(lines.take(k)).len() == i,
    decreases lines.len(),
{
    let shorter = lines.drop_last();
    let n = lines.len() - 1;
    if i < addresses_in(shorter).len() {
        law_addresses_are_reachable(shorter, i);
        let k = choose|k: int|
            0 <= k < shorter.len() && address_in(words(#[trigger] shorter[k])) == Some(
                addresses_in(shorter)[i],
            ) && !is_virtual(words(shorter[k])[1]) && addresses_in(shorter.take(k)).len() == i;
        assert(lines[k] == shorter[k]);
        assert(lines.take(k) == shorter.take(k));
    } else {
        assert(lines.take(n) == shorter);
        assert(lines[n] == lines.last());
    }
}

/// A device is left out exactly if its name begins with `tun`, `docker` or `br-`.
pub proof fn law_tunnels_and_bridges_are_left_out(device: Seq<char>, rest: Seq<char>)
    ensures
        is_virtual("tun"@ + rest),
        is_virtual("docker"@ + rest),
        is_virtual("br-"@ + rest),
        is_virtual(device) ==> exists|tail: Seq<char>|
            device == #[trigger] ("tun"@ + tail) || device == "docker"@ + tail || device == "br-"@
                + tail,
{
    assert(("tun"@ + rest).subrange(0, "tun"@.len() as int) == "tun"@);
    assert(("docker"@ + rest).subrange(0, "docker"@.len() as int) == "docker"@);
    assert(("br-"@ + rest).subrange(0, "br-"@.len() as int) == "br-"@);
    if "tun"@.is_prefix_of(device) {
        let tail = device.skip("tun"@.len() as int);
        assert(device == "tun"@ + tail);
    } else if "docker"@.is_prefix_of(device) {
        let tail = device.skip("docker"@.len() as int);
        assert("tun"@ + tail == "tun"@ + tail);
        assert(device == "docker"@ + tail);
    } else if "br-"@.is_prefix_of(device) {
        let tail = device.skip("br-"@.len() as int);
        assert("tun"@ + tail == "tun"@ + tail);
        assert(device == "br-"@ + tail);
    }
}

/// The address in a line is what stands before a slash in the word behind the first `inet`
/// after the device, whatever stands around it. A line has none if its device is left out,
/// if it has no such `inet`, or if nothing follows it.
pub proof fn law_the_address_follows_inet(
    number: Seq<char>,
    device: Seq<char>,
    between: Seq<Seq<char>>,
    address: Seq<char>,
    length: Seq<char>,
    rest: Seq<Seq<char>>,
)
    requires
        forall|i: int| 0 <= i < between.len() ==> #[trigger] between[i] != "inet"@,
        !address.contains('/'),
    ensures
        ({
            let start = seq![number, device] + between;
            let bare = start.push("inet"@).push(address) + rest;
            let full = start.push("inet"@).push(address + seq!['/'] + length) + rest;
            &&& !is_virtual(device) ==> address_in(bare) == Some(address) && address_in(full)
                == Some(address)
            &&& is_virtual(device) ==> address_in(bare) is None && address_in(full) is None
            &&& address_in(start) is None
            &&& address_in(start.push("inet"@)) is None
        }),
        address_in(seq![number]) is None,
        address_in(Seq::empty()) is None,
{
    let start = seq![number, device] + between;
    let k = start.len() as int;
    let some = start.push("inet"@);
    let word = address + seq!['/'] + length;
    let bare = some.push(address) + rest;
    let full = some.push(word) + rest;
    assert(word == address.push('/') + length);
    crate::text::law_fields_are_cut_at_the_character(address, length, '/');
    crate::text::law_fields_are_cut_at_the_character(length, address, '/');
    assert(fields(word, '/')[0] == address);
    assert(fields(address, '/')[0] == address);
    assert(start[1] == device && some[1] == device && bare[1] == device && full[1] == device);
    assert(some.take(k) == start);
    assert(bare.take(k) == start);
    assert(full.take(k) == start);
    assert forall|i: int| 2 <= i < k implies #[trigger] start[i] != "inet"@ by {
        assert(start[i] == between[i - 2]);
    }
    lemma_inet_found(start, some, k);
    lemma_inet_found(start, bare, k);
    lemma_inet_found(start, full, k);
    assert(inet_at(some, k) && inet_at(bare, k) && inet_at(full, k));
    assert((choose|i: int| inet_at(some, i)) == k);
    assert((choose|i: int| inet_at(bare, i)) == k);
    assert((choose|i: int| inet_at(full, i)) == k);
    assert(bare[k + 1] == address);
    assert(full[k + 1] == word);
    assert forall|i: int| !inet_at(start, i) by {
        if inet_at(start, i) {
            assert(start[i] == between[i - 2]);
        }
    }
}

/// If no word of the beginning of a line behind the device is `inet`, and the next word is,
/// then that is the first.
proof fn lemma_inet_found(start: Seq<Seq<char>>, line: Seq<Seq<char>>, k: int)
    requires
        2 <= k == start.len() < line.len(),
        line.take(k) == start,
        line[k] == "inet"@,
        forall|i: int| 2 <= i < k ==> #[trigger] start[i] != "inet"@,
    ensures
        forall|i: int| inet_at(line, i) <==> i == k,
{
    assert forall|i: int| 2 <= i < k implies #[trigger] line[i] != "inet"@ by {
        assert(line.take(k)[i] == line[i]);
        assert(start[i] != "inet"@);
    }
    assert(inet_at(line, k));
    assert forall|i: int| inet_at(line, i) implies i == k by {
        if i > k {
            assert(line[k] != "inet"@);
        } else if i < k {
            assert(line[i] != "inet"@);
        }
    }
}

/// Each line speaks for itself: the addresses of some lines and then others are those of the
/// first and then those of the others, and one line has the address of its words or none.
pub proof fn law_lines_speak_for_themselves(
    a: Seq<Seq<char>>,
    b: Seq<Seq<char>>,
    line: Seq<char>,
)
    ensures
        addresses_in(a + b) == addresses_in(a) + addresses_in(b),
        addresses_in(seq![line]) == match address_in(words(line)) {
            Some(address) => seq![address],
            None => Seq::empty(),
        },
    decreases b.len(),
{
    let none = Seq::<Seq<char>>::empty();
    assert(seq![line].drop_last() == none);
    assert(addresses_in(none) == none);
    assert(addresses_in(seq![line]) == match address_in(words(line)) {
        Some(address) => seq![address],
        None => Seq::empty(),
    });
    if b.len() == 0 {
        assert(a + b == a);
        assert(addresses_in(a) + addresses_in(b) == addresses_in(a));
    } else {
        law_lines_speak_for_themselves(a, b.drop_last(), line);
        assert((a + b).drop_last() == a + b.drop_last());
        assert((a + b).last() == b.last());
        assert(addresses_in(a + b) == addresses_in(a) + addresses_in(b));
    }
}

} // verus!
