//! The guard against DNS rebinding: which `Host` headers a request may carry.

use vstd::prelude::*;
use vstd::slice::slice_subrange;

use crate::text::{
    all_digits, chars_of, decimal, digits_value, fields, fields_of, glued, is_digit,
    law_decimal_is_the_shortest, law_fields_are_cut_at_the_character,
    law_fields_are_what_was_glued, lemma_one_decimal, lemma_three_digits, same, string_of, views,
};

verus! {

/// One of the four numbers of an IPv4 address: one to three digits, no leading zero,
/// at most 255.
pub open spec fn octet(s: Seq<char>) -> bool {
    &&& 1 <= s.len() <= 3
    &&& all_digits(s)
    &&& s.len() > 1 ==> s[0] != '0'
    &&& digits_value(s) <= 255
}

/// An IPv4 address: four numbers with dots between them.
pub open spec fn is_ipv4(s: Seq<char>) -> bool {
    let f = fields(s, '.');
    &&& f.len() == 4
    &&& forall|i: int| 0 <= i < 4 ==> octet(#[trigger] f[i])
}

/// Whether `c` is a hexadecimal digit.
pub open spec fn is_hex(c: char) -> bool {
    is_digit(c) || 'a' <= c <= 'f' || 'A' <= c <= 'F'
}

/// One of the eight groups of an IPv6 address: one to four hexadecimal digits.
pub open spec fn group(s: Seq<char>) -> bool {
    &&& 1 <= s.len() <= 4
    &&& forall|i: int| 0 <= i < s.len() ==> is_hex(#[trigger] s[i])
}

/// How many groups a run of an IPv6 address writes, if it writes any. In the last run
/// of an address an IPv4 address may stand for the last two groups.
pub open spec fn groups(s: Seq<char>, last_run: bool) -> Option<nat> {
    let f = fields(s, ':');
    if s.len() == 0 {
        Some(0)
    } else if forall|i: int| 0 <= i < f.len() ==> group(#[trigger] f[i]) {
        Some(f.len())
    } else if last_run && (forall|i: int| 0 <= i < f.len() - 1 ==> group(#[trigger] f[i]))
        && is_ipv4(f.last()) {
        Some(f.len() + 1)
    } else {
        None
    }
}

/// Whether the `::` at `i` stands for at least one group of zeros between two runs.
pub open spec fn compressed_at(s: Seq<char>, i: int) -> bool {
    &&& 0 <= i <= s.len() - 2
    &&& s[i] == ':'
    &&& s[i + 1] == ':'
    &&& groups(s.take(i), false) matches Some(head)
    &&& groups(s.skip(i + 2), true) matches Some(tail)
    &&& head + tail <= 7
}

/// An IPv6 address: eight groups, or fewer with one `::` for the missing ones.
pub open spec fn is_ipv6(s: Seq<char>) -> bool {
    ||| groups(s, true) == Some(8nat)
    ||| exists|i: int| compressed_at(s, i)
}

/// The place of the last `c` in `s`, or -1.
pub open spec fn last_index(s: Seq<char>, c: char) -> int
    decreases s.len(),
{
    if s.len() == 0 {
        -1
    } else if s.last() == c {
        s.len() - 1
    } else {
        last_index(s.drop_last(), c)
    }
}

/// Whether a text stands in brackets.
pub open spec fn bracketed(s: Seq<char>) -> bool {
    s.len() >= 2 && s[0] == '[' && s.last() == ']'
}

/// A text without the brackets around it, if it stands in brackets.
pub open spec fn unbracketed(s: Seq<char>) -> Seq<char> {
    if bracketed(s) {
        s.subrange(1, s.len() - 1)
    } else {
        s
    }
}

/// Whether `c` does not occur in `s`.
pub open spec fn free_of(s: Seq<char>, c: char) -> bool {
    forall|i: int| 0 <= i < s.len() ==> #[trigger] s[i] != c
}

/// Whether a `Host` header is one literal in brackets, so that its colons belong to the
/// literal and no port follows: its only closing bracket is its last character.
pub open spec fn lone_literal(host: Seq<char>) -> bool {
    bracketed(host) && free_of(host.drop_last(), ']')
}

/// A `Host` header without the port, if there is one: without the last colon and what
/// follows it.
pub open spec fn without_port(host: Seq<char>) -> Seq<char> {
    let colon = last_index(host, ':');
    if !lone_literal(host) && colon >= 0 {
        host.take(colon)
    } else {
        host
    }
}

/// The host in a `Host` header: without the port, and then without the brackets around it.
pub open spec fn host_name(host: Seq<char>) -> Seq<char> {
    unbracketed(without_port(host))
}

/// Whether a name is one by which a person reaches this machine: an address or
/// `localhost`.
pub open spec fn known_name(name: Seq<char>) -> bool {
    name == "localhost"@ || is_ipv4(name) || is_ipv6(name)
}

/// Whether a `Host` header names this machine the way a person reaches it.
pub open spec fn host_allowed(host: Seq<char>) -> bool {
    known_name(host_name(host))
}

/// Whether a byte may stand in a header that is read as text.
pub open spec fn visible(b: u8) -> bool {
    32 <= b < 127 || b == 9
}

/// The text of visible ASCII bytes.
pub open spec fn ascii_text(bytes: Seq<u8>) -> Seq<char> {
    Seq::new(bytes.len(), |i: int| bytes[i] as char)
}

/// The bytes of a header that may be missing.
pub open spec fn opt_bytes(bytes: Option<&[u8]>) -> Option<Seq<u8>> {
    match bytes {
        Some(b) => Some(b@),
        None => None,
    }
}

/// Whether a request with this `Host` header may pass. A request without one may. A
/// header that is not text names neither an address nor `localhost`.
pub open spec fn guarded(host: Option<Seq<u8>>) -> bool {
    match host {
        None => true,
        Some(bytes) => {
            &&& forall|i: int| 0 <= i < bytes.len() ==> visible(#[trigger] bytes[i])
            &&& host_allowed(ascii_text(bytes))
        },
    }
}

/// Whether a text is one of the four numbers of an IPv4 address: one to three digits, no
/// leading zero, at most 255.
fn octet_of(s: &[char]) -> (r: bool)
    ensures
        r == octet(s@),
{
    if s.len() < 1 || s.len() > 3 {
        return false;
    }
    let mut n: u32 = 0;
    let mut i: usize = 0;
    while i < s.len()
        invariant
            i <= s@.len() <= 3,
            all_digits(s@.take(i as int)),
            n == digits_value(s@.take(i as int)),
            i == 0 ==> n == 0,
            i == 1 ==> n <= 9,
            i == 2 ==> n <= 99,
            i == 3 ==> n <= 999,
        decreases s@.len() - i,
    {
        if s[i] < '0' || s[i] > '9' {
            assert(!is_digit(s@[i as int]));
            return false;
        }
        assert(s@.take(i + 1).drop_last() == s@.take(i as int));
        n = n * 10 + (s[i] as u32 - 48);
        i += 1;
    }
    assert(s@.take(s@.len() as int) == s@);
    (s.len() == 1 || s[0] != '0') && n <= 255
}

/// Whether `s` is an IPv4 address.
fn ipv4(s: &[char]) -> (r: bool)
    ensures
        r == is_ipv4(s@),
{
    let f: Vec<Vec<char>> = fields_of(s, '.');
    assert(fields(s@, '.').len() == f@.len());
    if f.len() != 4 {
        return false;
    }
    let mut i: usize = 0;
    while i < 4
        invariant
            i <= 4,
            f@.len() == 4,
            views(f@) == fields(s@, '.'),
            forall|j: int| 0 <= j < i ==> octet(#[trigger] fields(s@, '.')[j]),
        decreases 4 - i,
    {
        assert(fields(s@, '.')[i as int] == f@[i as int]@);
        if !octet_of(f[i].as_slice()) {
            return false;
        }
        i += 1;
    }
    true
}

/// Whether `s` is a group of an IPv6 address.
fn group_of(s: &[char]) -> (r: bool)
    ensures
        r == group(s@),
{
    if s.len() < 1 || s.len() > 4 {
        return false;
    }
    let mut i: usize = 0;
    while i < s.len()
        invariant
            i <= s@.len(),
            forall|j: int| 0 <= j < i ==> is_hex(#[trigger] s@[j]),
        decreases s@.len() - i,
    {
        let c: char = s[i];
        if !(('0' <= c && c <= '9') || ('a' <= c && c <= 'f') || ('A' <= c && c <= 'F')) {
            assert(!is_hex(s@[i as int]));
            return false;
        }
        i += 1;
    }
    true
}

/// How many groups of an IPv6 address `s` writes, if it writes at most eight.
fn groups_of(s: &[char], last_run: bool) -> (r: Option<usize>)
    ensures
        match groups(s@, last_run) {
            Some(n) => if n <= 8 {
                r == Some(n as usize)
            } else {
                r is None
            },
            None => r is None,
        },
{
    if s.len() == 0 {
        return Some(0);
    }
    let f: Vec<Vec<char>> = fields_of(s, ':');
    let ghost fs = fields(s@, ':');
    proof {
        crate::text::lemma_split_nonempty(s@, |x: char| x == ':');
    }
    assert(fs.len() == f@.len());
    let mut i: usize = 0;
    while i < f.len() - 1
        invariant
            f@.len() >= 1,
            i <= f@.len() - 1,
            s@.len() > 0,
            fs == fields(s@, ':'),
            views(f@) == fs,
            forall|j: int| 0 <= j < i ==> group(#[trigger] fs[j]),
        decreases f@.len() - i,
    {
        assert(fs[i as int] == f@[i as int]@);
        if !group_of(f[i].as_slice()) {
            return None;
        }
        i += 1;
    }
    let last: usize = f.len() - 1;
    assert(fs[last as int] == f@[last as int]@);
    if group_of(f[last].as_slice()) {
        if f.len() <= 8 {
            Some(f.len())
        } else {
            None
        }
    } else if last_run && ipv4(f[last].as_slice()) {
        if f.len() <= 7 {
            Some(f.len() + 1)
        } else {
            None
        }
    } else {
        None
    }
}

/// Two colons in a row leave an empty field between them, before the last one.
proof fn lemma_double_colon(s: Seq<char>, j: int) -> (m: int)
    requires
        0 <= j < s.len() - 1,
        s[j] == ':',
        s[j + 1] == ':',
    ensures
        0 <= m < fields(s, ':').len() - 1,
        fields(s, ':')[m].len() == 0,
    decreases s.len(),
{
    let sep = |x: char| x == ':';
    let t = s.drop_last();
    crate::text::lemma_split_nonempty(t, sep);
    if j == s.len() - 2 {
        assert(t.last() == ':');
        crate::text::lemma_split_nonempty(t.drop_last(), sep);
        fields(s, ':').len() - 2
    } else {
        let m = lemma_double_colon(t, j);
        m
    }
}

/// A run with an empty field writes no groups.
proof fn lemma_empty_field(s: Seq<char>, last_run: bool, m: int)
    requires
        s.len() > 0,
        0 <= m < fields(s, ':').len(),
        fields(s, ':')[m].len() == 0,
    ensures
        groups(s, last_run) is None,
{
    let f = fields(s, ':');
    assert(!group(f[m]));
    if m == f.len() - 1 {
        assert(fields(f[m], '.').len() == 1);
    }
}

/// Only the first `::` of a text can be the one that stands for zeros.
proof fn lemma_first_double_colon(s: Seq<char>, i: int)
    requires
        0 <= i <= s.len() - 2,
        s[i] == ':',
        s[i + 1] == ':',
        forall|j: int| 0 <= j < i ==> !((#[trigger] s[j]) == ':' && s[j + 1] == ':'),
    ensures
        is_ipv6(s) <==> compressed_at(s, i),
{
    let m = lemma_double_colon(s, i);
    lemma_empty_field(s, true, m);
    assert forall|k: int| compressed_at(s, k) implies k == i by {
        if k < i {
            assert(s[k] == ':' && s[k + 1] == ':');
        } else if k > i + 1 {
            let head = s.take(k);
            assert(head[i] == ':' && head[i + 1] == ':');
            let e = lemma_double_colon(head, i);
            lemma_empty_field(head, false, e);
        } else if k == i + 1 {
            let head = s.take(k);
            assert(head.last() == ':');
            crate::text::lemma_split_nonempty(head.drop_last(), |x: char| x == ':');
            lemma_empty_field(head, false, fields(head, ':').len() - 1);
        }
    }
}

/// Whether `s` is an IPv6 address.
fn ipv6(s: &[char]) -> (r: bool)
    ensures
        r == is_ipv6(s@),
{
    let mut i: usize = 0;
    while i < s.len() && s.len() - i >= 2
        invariant
            i <= s@.len(),
            forall|j: int|
                0 <= j < i ==> !((#[trigger] s@[j]) == ':' && s@[j + 1] == ':'),
        decreases s@.len() - i,
    {
        if s[i] == ':' && s[i + 1] == ':' {
            proof {
                lemma_first_double_colon(s@, i as int);
            }
            let head: Option<usize> = groups_of(slice_subrange(s, 0, i), false);
            let tail: Option<usize> = groups_of(slice_subrange(s, i + 2, s.len()), true);
            assert(s@.take(i as int) == s@.subrange(0, i as int));
            assert(s@.skip(i + 2) == s@.subrange(i + 2, s@.len() as int));
            return match (head, tail) {
                (Some(h), Some(t)) => h + t <= 7,
                _ => false,
            };
        }
        i += 1;
    }
    assert forall|k: int| !compressed_at(s@, k) by {
        if compressed_at(s@, k) {
            assert(s@[k] == ':' && s@[k + 1] == ':');
        }
    }
    groups_of(s, true) == Some(8)
}

/// Whether a `Host` header with this text names this machine by address or as
/// `localhost`.
pub fn allow_host(host: &str) -> (r: bool)
    ensures
        r == host_allowed(host@),
{
    let chars: Vec<char> = chars_of(host);
    let host: &[char] = chars.as_slice();
    let end: usize = if is_literal(host) {
        host.len()
    } else {
        port_start(host)
    };
    assert(host@.take(host@.len() as int) == host@);
    let h: &[char] = slice_subrange(host, 0, end);
    assert(h@ == without_port(host@));
    let name: &[char] = if in_brackets(h) {
        slice_subrange(h, 1, end - 1)
    } else {
        h
    };
    assert(name@ == host_name(host@));
    let text: String = string_of(name);
    same(text.as_str(), "localhost") || ipv4(name) || ipv6(name)
}

/// Whether a text stands in brackets.
fn in_brackets(s: &[char]) -> (r: bool)
    ensures
        r == bracketed(s@),
{
    s.len() >= 2 && s[0] == '[' && s[s.len() - 1] == ']'
}

/// Whether a `Host` header is one literal in brackets.
fn is_literal(host: &[char]) -> (r: bool)
    ensures
        r == lone_literal(host@),
{
    if !in_brackets(host) {
        return false;
    }
    let last: usize = host.len() - 1;
    let mut i: usize = 0;
    while i < last
        invariant
            last == host@.len() - 1,
            i <= last,
            forall|j: int| 0 <= j < i ==> #[trigger] host@[j] != ']',
        decreases last - i,
    {
        if host[i] == ']' {
            assert(host@.drop_last()[i as int] == ']');
            return false;
        }
        i += 1;
    }
    true
}

/// Where the port begins with a colon, or the end of a text without a colon.
fn port_start(host: &[char]) -> (r: usize)
    ensures
        r == if last_index(host@, ':') >= 0 {
            last_index(host@, ':')
        } else {
            host@.len() as int
        },
        r <= host@.len(),
{
    let mut colon: usize = host.len();
    assert(host@.take(host@.len() as int) == host@);
    while colon > 0 && host[colon - 1] != ':'
        invariant
            colon <= host@.len(),
            last_index(host@, ':') == last_index(host@.take(colon as int), ':'),
        decreases colon,
    {
        assert(host@.take(colon as int).drop_last() == host@.take(colon - 1));
        colon -= 1;
    }
    if colon > 0 {
        assert(host@.take(colon as int).last() == ':');
        colon - 1
    } else {
        host.len()
    }
}

/// Whether a request with this `Host` header passes.
fn passes(host: Option<&[u8]>) -> (r: bool)
    ensures
        r == guarded(opt_bytes(host)),
{
    match host {
        None => true,
        Some(bytes) => {
            let mut text = String::new();
            let mut i: usize = 0;
            while i < bytes.len()
                invariant
                    host == Some(bytes),
                    i <= bytes@.len(),
                    forall|j: int| 0 <= j < i ==> visible(#[trigger] bytes@[j]),
                    text@ == ascii_text(bytes@.take(i as int)),
                decreases bytes@.len() - i,
            {
                let b: u8 = bytes[i];
                if !((32 <= b && b < 127) || b == 9) {
                    assert(!visible(bytes@[i as int]));
                    return false;
                }
                text.push(b as char);
                i += 1;
                assert(ascii_text(bytes@.take(i as int)) == ascii_text(
                    bytes@.take(i - 1),
                ).push(b as char));
            }
            assert(bytes@.take(bytes@.len() as int) == bytes@);
            allow_host(text.as_str())
        },
    }
}

/// The answer to a request that is refused before anybody looks at it.
pub struct Refusal {
    pub status: u16,
    pub text: String,
}

/// Decides whether a request may pass, by its `Host` header.
///
/// A site that points its own name at this machine sends that name here. People reach
/// the remote by address or as `localhost`, so everything else is refused.
pub fn guard_host(host: Option<&[u8]>) -> (r: Option<Refusal>)
    ensures
        match r {
            None => guarded(opt_bytes(host)),
            Some(refusal) => !guarded(opt_bytes(host)) && refusal.status == 403
                && refusal.text@ == "bad host"@,
        },
{
    if passes(host) {
        None
    } else {
        Some(Refusal { status: 403, text: "bad host".to_owned() })
    }
}

/// A text without the separator is its own only field.
proof fn lemma_one_field(s: Seq<char>, c: char)
    requires
        forall|i: int| 0 <= i < s.len() ==> #[trigger] s[i] != c,
    ensures
        fields(s, c) == seq![s],
    decreases s.len(),
{
    if s.len() > 0 {
        assert(s.last() != c);
        lemma_one_field(s.drop_last(), c);
        assert(s == s.drop_last().push(s.last()));
        assert(fields(s, c) == seq![s]);
    } else {
        assert(s == Seq::<char>::empty());
    }
}

/// Every character of a text is the separator or stands in one of the fields.
proof fn lemma_char_in_field(s: Seq<char>, c: char, i: int) -> (m: int)
    requires
        0 <= i < s.len(),
        s[i] != c,
    ensures
        0 <= m < fields(s, c).len(),
        fields(s, c)[m].contains(s[i]),
    decreases s.len(),
{
    let t = s.drop_last();
    crate::text::lemma_split_nonempty(t, |x: char| x == c);
    let f = fields(s, c);
    let before = fields(t, c);
    if i == s.len() - 1 {
        assert(f.last()[before.last().len() as int] == s[i]);
        f.len() - 1
    } else {
        let m = lemma_char_in_field(t, c, i);
        let k = choose|k: int| 0 <= k < before[m].len() && before[m][k] == s[i];
        assert(f[m][k] == s[i]);
        m
    }
}

/// The last place of a character that does not occur in the tail.
proof fn lemma_last_index(s: Seq<char>, c: char, i: int)
    requires
        0 <= i < s.len(),
        s[i] == c,
        forall|j: int| i < j < s.len() ==> #[trigger] s[j] != c,
    ensures
        last_index(s, c) == i,
    decreases s.len(),
{
    if i < s.len() - 1 {
        lemma_last_index(s.drop_last(), c, i);
    }
}

/// A text without the character has no last place of it.
proof fn lemma_no_index(s: Seq<char>, c: char)
    requires
        forall|i: int| 0 <= i < s.len() ==> #[trigger] s[i] != c,
    ensures
        last_index(s, c) == -1,
    decreases s.len(),
{
    if s.len() > 0 {
        lemma_no_index(s.drop_last(), c);
    }
}

/// The header for a host and a port: the host, a colon and the port.
pub open spec fn with_port(name: Seq<char>, port: Seq<char>) -> Seq<char> {
    name.push(':') + port
}

/// What stands before the port of a header.
proof fn lemma_strip_port(name: Seq<char>, port: Seq<char>)
    requires
        free_of(port, ':'),
    ensures
        last_index(with_port(name, port), ':') == name.len(),
        with_port(name, port).take(name.len() as int) == name,
{
    let s = with_port(name, port);
    assert(s[name.len() as int] == ':');
    assert forall|j: int| name.len() < j < s.len() implies #[trigger] s[j] != ':' by {
        assert(s[j] == port[j - name.len() - 1]);
    }
    lemma_last_index(s, ':', name.len() as int);
    assert(s.take(name.len() as int) == name);
}

/// Whether `c` may stand in an IPv6 address.
spec fn address_char(c: char) -> bool {
    is_hex(c) || c == ':' || c == '.'
}

/// An IPv4 address holds nothing but digits and dots.
proof fn lemma_ipv4_chars(s: Seq<char>)
    requires
        is_ipv4(s),
    ensures
        forall|i: int| 0 <= i < s.len() ==> is_digit(#[trigger] s[i]) || s[i] == '.',
{
    assert forall|i: int| 0 <= i < s.len() implies is_digit(#[trigger] s[i]) || s[i] == '.' by {
        if s[i] != '.' {
            let m = lemma_char_in_field(s, '.', i);
            let f = fields(s, '.')[m];
            assert(octet(f));
            let k = choose|k: int| 0 <= k < f.len() && f[k] == s[i];
            assert(is_digit(f[k]));
        }
    }
}

/// A run of an IPv6 address holds nothing but hexadecimal digits, colons and dots.
proof fn lemma_run_chars(s: Seq<char>, last_run: bool)
    requires
        groups(s, last_run) is Some,
    ensures
        forall|i: int| 0 <= i < s.len() ==> address_char(#[trigger] s[i]),
{
    assert forall|i: int| 0 <= i < s.len() implies address_char(#[trigger] s[i]) by {
        if s[i] != ':' {
            let m = lemma_char_in_field(s, ':', i);
            let f = fields(s, ':')[m];
            let k = choose|k: int| 0 <= k < f.len() && f[k] == s[i];
            if group(f) {
                assert(is_hex(f[k]));
            } else {
                assert(m == fields(s, ':').len() - 1);
                lemma_ipv4_chars(f);
            }
        }
    }
}

/// An IPv6 address holds nothing but hexadecimal digits, colons and dots.
proof fn lemma_ipv6_chars(s: Seq<char>)
    requires
        is_ipv6(s),
    ensures
        forall|i: int| 0 <= i < s.len() ==> address_char(#[trigger] s[i]),
{
    if groups(s, true) == Some(8nat) {
        lemma_run_chars(s, true);
    } else {
        let k = choose|k: int| compressed_at(s, k);
        lemma_run_chars(s.take(k), false);
        lemma_run_chars(s.skip(k + 2), true);
        assert forall|i: int| 0 <= i < s.len() implies address_char(#[trigger] s[i]) by {
            if i < k {
                assert(s.take(k)[i] == s[i]);
            } else if i > k + 1 {
                assert(s.skip(k + 2)[i - k - 2] == s[i]);
            }
        }
    }
}

/// A text with the separator once has the two fields around it.
proof fn lemma_two_fields(a: Seq<char>, b: Seq<char>, c: char)
    requires
        free_of(a, c),
        free_of(b, c),
    ensures
        fields(a.push(c) + b, c) == seq![a, b],
    decreases b.len(),
{
    let s = a.push(c) + b;
    lemma_one_field(a, c);
    if b.len() == 0 {
        assert(s.drop_last() == a);
        assert(b == Seq::<char>::empty());
        assert(seq![a].push(b) == seq![a, b]);
    } else {
        let t = b.drop_last();
        assert forall|i: int| 0 <= i < t.len() implies #[trigger] t[i] != c by {
            assert(t[i] == b[i]);
        }
        lemma_two_fields(a, t, c);
        assert(s.drop_last() == a.push(c) + t);
        assert(t.push(b.last()) == b);
        assert(b[b.len() - 1] != c);
        assert(seq![a, t].drop_last().push(b) == seq![a, b]);
    }
}

/// A text with one colon is neither an address nor `localhost`.
proof fn lemma_one_colon(a: Seq<char>, b: Seq<char>)
    requires
        free_of(a, ':'),
        free_of(b, ':'),
    ensures
        !known_name(with_port(a, b)),
{
    let s = with_port(a, b);
    let n = a.len() as int;
    assert(s[n] == ':');
    if s == "localhost"@ {
        reveal_strlit("localhost");
        assert(s[n] != ':');
    }
    if is_ipv4(s) {
        lemma_ipv4_chars(s);
        assert(is_digit(s[n]) || s[n] == '.');
    }
    lemma_two_fields(a, b, ':');
    assert(fields(s, ':').len() == 2);
    assert(groups(s, true) != Some(8nat));
    assert forall|i: int| !compressed_at(s, i) by {
        if compressed_at(s, i) {
            if i < n {
                assert(s[i] == a[i]);
            } else {
                assert(s[i + 1] == b[i - n]);
            }
        }
    }
}

/// A text that begins with a bracket is neither an address nor `localhost`.
proof fn lemma_open_bracket(s: Seq<char>)
    requires
        s.len() > 0,
        s[0] == '[',
    ensures
        !known_name(s),
{
    if s == "localhost"@ {
        reveal_strlit("localhost");
        assert(s[0] == 'l');
    }
    if is_ipv4(s) {
        lemma_ipv4_chars(s);
        assert(is_digit(s[0]) || s[0] == '.');
    }
    if is_ipv6(s) {
        lemma_ipv6_chars(s);
        assert(address_char(s[0]));
    }
}

/// For a host without a colon the port makes no difference, nor does leaving it out.
pub proof fn law_port_makes_no_difference(name: Seq<char>, port: Seq<char>)
    requires
        free_of(name, ':'),
        free_of(port, ':'),
    ensures
        host_allowed(with_port(name, port)) == host_allowed(name),
{
    let host = with_port(name, port);
    lemma_strip_port(name, port);
    lemma_no_index(name, ':');
    assert(name.take(name.len() as int) == name);
    if lone_literal(host) {
        let front = host.drop_last();
        let a = name.skip(1);
        let b = port.drop_last();
        assert(name.len() > 0 && host[0] == name[0]);
        assert(port.len() > 0);
        assert(name.last() != ']') by {
            assert(front[name.len() - 1] == name.last());
        }
        lemma_open_bracket(name);
        assert(host.subrange(1, host.len() - 1) == with_port(a, b));
        assert(free_of(a, ':'));
        assert(free_of(b, ':'));
        lemma_one_colon(a, b);
    }
}

/// A DNS name other than `localhost` is refused, with or without a port: no text
/// without colons and brackets passes that holds any character but digits and dots.
pub proof fn law_dns_names_are_refused(name: Seq<char>, port: Seq<char>, i: int)
    requires
        free_of(name, ':'),
        free_of(name, '['),
        free_of(port, ':'),
        name != "localhost"@,
        0 <= i < name.len(),
        !is_digit(name[i]),
        name[i] != '.',
    ensures
        !host_allowed(name),
        !host_allowed(with_port(name, port)),
{
    law_port_makes_no_difference(name, port);
    lemma_no_index(name, ':');
    assert(name[0] != '[');
    assert(host_name(name) == name);
    if is_ipv4(name) {
        lemma_ipv4_chars(name);
        assert(is_digit(name[i]) || name[i] == '.');
    }
    lemma_one_field(name, ':');
    assert(groups(name, true) != Some(8nat));
    assert forall|k: int| !compressed_at(name, k) by {
        if compressed_at(name, k) {
            assert(name[k] == ':');
        }
    }
}

/// Every IPv4 address and `localhost` pass, with or without a port.
pub proof fn law_addresses_pass(name: Seq<char>, port: Seq<char>)
    requires
        is_ipv4(name) || name == "localhost"@,
        free_of(port, ':'),
    ensures
        host_allowed(name),
        host_allowed(with_port(name, port)),
{
    if name == "localhost"@ {
        reveal_strlit("localhost");
    } else {
        lemma_ipv4_chars(name);
    }
    law_port_makes_no_difference(name, port);
    lemma_no_index(name, ':');
    if name.len() > 0 {
        assert(name[0] != '[');
    }
    assert(host_name(name) == name);
}

/// Every IPv6 address passes in brackets, with or without a port.
pub proof fn law_bracketed_addresses_pass(address: Seq<char>, port: Seq<char>)
    requires
        is_ipv6(address),
        free_of(port, ':'),
    ensures
        host_allowed(seq!['['] + address + seq![']']),
        host_allowed(with_port(seq!['['] + address + seq![']'], port)),
{
    let h = seq!['['] + address + seq![']'];
    lemma_strip_port(h, port);
    assert(h.subrange(1, h.len() - 1) == address);
    lemma_ipv6_chars(address);
    assert forall|i: int| 0 <= i < h.drop_last().len() implies #[trigger] h.drop_last()[i]
        != ']' by {
        if i > 0 {
            assert(h.drop_last()[i] == address[i - 1]);
        }
    }
    let s = with_port(h, port);
    assert(s.drop_last()[h.len() - 1] == ']');
}

/// A request with a `Host` header passes only if the header names an address or
/// `localhost`; a request without one always passes.
pub proof fn law_only_known_hosts_pass(host: Option<Seq<u8>>)
    ensures
        host is None ==> guarded(host),
        guarded(host) && host is Some ==> {
            let name = host_name(ascii_text(host->0));
            name == "localhost"@ || is_ipv4(name) || is_ipv6(name)
        },
{
}

/// Four numbers with dots between them.
pub open spec fn dotted(a: nat, b: nat, c: nat, d: nat) -> Seq<char> {
    glued(seq![decimal(a), decimal(b), decimal(c), decimal(d)], '.')
}

/// A number holds no character but digits.
proof fn lemma_decimal_free(n: nat, c: char)
    requires
        !is_digit(c),
    ensures
        !decimal(n).contains(c),
{
    law_decimal_is_the_shortest(n, Seq::empty());
    if decimal(n).contains(c) {
        let i = choose|i: int| 0 <= i < decimal(n).len() && decimal(n)[i] == c;
        assert(is_digit(decimal(n)[i]));
    }
}

/// The decimal form of a number up to 255 is one of the numbers of an address.
proof fn lemma_octet(n: nat)
    requires
        n <= 255,
    ensures
        octet(decimal(n)),
{
    law_decimal_is_the_shortest(n, Seq::empty());
    lemma_three_digits(n);
}

/// An IPv4 address is four numbers from 0 to 255, written in decimal with dots between
/// them. All of these are addresses, and nothing else is.
pub proof fn law_ipv4_is_four_numbers(a: nat, b: nat, c: nat, d: nat, s: Seq<char>)
    ensures
        a <= 255 && b <= 255 && c <= 255 && d <= 255 ==> is_ipv4(dotted(a, b, c, d)),
        is_ipv4(s) ==> exists|w: nat, x: nat, y: nat, z: nat|
            w <= 255 && x <= 255 && y <= 255 && z <= 255 && s == #[trigger] dotted(w, x, y, z),
{
    if a <= 255 && b <= 255 && c <= 255 && d <= 255 {
        let ps = seq![decimal(a), decimal(b), decimal(c), decimal(d)];
        lemma_decimal_free(a, '.');
        lemma_decimal_free(b, '.');
        lemma_decimal_free(c, '.');
        lemma_decimal_free(d, '.');
        lemma_octet(a);
        lemma_octet(b);
        lemma_octet(c);
        lemma_octet(d);
        law_fields_are_what_was_glued(ps, s, '.');
        assert(fields(dotted(a, b, c, d), '.') == ps);
    }
    if is_ipv4(s) {
        let f = fields(s, '.');
        law_fields_are_what_was_glued(f, s, '.');
        assert(octet(f[0]) && octet(f[1]) && octet(f[2]) && octet(f[3]));
        lemma_one_decimal(f[0]);
        lemma_one_decimal(f[1]);
        lemma_one_decimal(f[2]);
        lemma_one_decimal(f[3]);
        let w = digits_value(f[0]);
        let x = digits_value(f[1]);
        let y = digits_value(f[2]);
        let z = digits_value(f[3]);
        assert(f == seq![decimal(w), decimal(x), decimal(y), decimal(z)]);
        assert(s == dotted(w, x, y, z));
    }
}

/// One to four hexadecimal digits.
pub open spec fn hex_word(s: Seq<char>) -> bool {
    &&& 1 <= s.len() <= 4
    &&& forall|i: int|
        0 <= i < s.len() ==> '0' <= #[trigger] s[i] <= '9' || 'a' <= s[i] <= 'f' || 'A' <= s[i]
            <= 'F'
}

/// Hexadecimal words with colons between them, as many as `ws` has.
pub open spec fn colon_words(s: Seq<char>, ws: Seq<Seq<char>>) -> bool {
    &&& forall|i: int| 0 <= i < ws.len() ==> hex_word(#[trigger] ws[i])
    &&& s == glued(ws, ':')
}

/// Hexadecimal words and an IPv4 address, with colons between them.
pub open spec fn colon_words_and_ipv4(s: Seq<char>, ws: Seq<Seq<char>>, four: Seq<char>) -> bool {
    &&& forall|i: int| 0 <= i < ws.len() ==> hex_word(#[trigger] ws[i])
    &&& is_ipv4(four)
    &&& s == glued(ws.push(four), ':')
}

/// Whether `s` writes `n` of the eight groups in a row.
pub open spec fn writes(s: Seq<char>, n: nat, last_run: bool) -> bool {
    ||| exists|ws: Seq<Seq<char>>| #[trigger] colon_words(s, ws) && ws.len() == n
    ||| last_run && exists|ws: Seq<Seq<char>>, four: Seq<char>| #[trigger]
        colon_words_and_ipv4(s, ws, four) && ws.len() + 2 == n
}

/// An IPv6 address writes eight groups of one to four hexadecimal digits with colons between
/// them; an IPv4 address may stand for the last two; and one `::` may stand for one or more
/// groups anywhere. All of these are addresses, and nothing else is.
pub proof fn law_ipv6_is_eight_groups(s: Seq<char>)
    ensures
        is_ipv6(s) <==> (writes(s, 8, true) || exists|a: Seq<char>, b: Seq<char>, h: nat, t: nat|
            #[trigger] writes(a, h, false) && #[trigger] writes(b, t, true) && h + t <= 7 && s == a
                + seq![':', ':'] + b),
{
    lemma_writes(s, true, 8);
    if exists|i: int| compressed_at(s, i) {
        let i = choose|i: int| compressed_at(s, i);
        let a = s.take(i);
        let b = s.skip(i + 2);
        let h = groups(a, false)->0;
        let t = groups(b, true)->0;
        lemma_writes(a, false, h);
        lemma_writes(b, true, t);
        assert(s == a + seq![':', ':'] + b);
        assert(writes(a, h, false) && writes(b, t, true));
    }
    if exists|a: Seq<char>, b: Seq<char>, h: nat, t: nat|
        #[trigger] writes(a, h, false) && #[trigger] writes(b, t, true) && h + t <= 7 && s == a
            + seq![':', ':'] + b {
        let (a, b, h, t) = choose|a: Seq<char>, b: Seq<char>, h: nat, t: nat|
            #[trigger] writes(a, h, false) && #[trigger] writes(b, t, true) && h + t <= 7 && s == a
                + seq![':', ':'] + b;
        lemma_writes(a, false, h);
        lemma_writes(b, true, t);
        let i = a.len() as int;
        assert(s.take(i) == a);
        assert(s.skip(i + 2) == b);
        assert(s[i] == ':' && s[i + 1] == ':');
        assert(compressed_at(s, i));
    }
}

/// A hexadecimal word is a group and holds no colon.
proof fn lemma_word(w: Seq<char>)
    ensures
        hex_word(w) == group(w),
        group(w) ==> !w.contains(':') && !w.contains('.'),
{
    if hex_word(w) {
        assert forall|i: int| 0 <= i < w.len() implies is_hex(#[trigger] w[i]) by {
            assert('0' <= w[i] <= '9' || 'a' <= w[i] <= 'f' || 'A' <= w[i] <= 'F');
        }
    }
    if group(w) {
        assert forall|i: int| 0 <= i < w.len() implies '0' <= #[trigger] w[i] <= '9' || 'a' <= w[i]
            <= 'f' || 'A' <= w[i] <= 'F' by {
            assert(is_hex(w[i]));
        }
        if w.contains(':') {
            let i = choose|i: int| 0 <= i < w.len() && w[i] == ':';
            assert(is_hex(w[i]));
        }
        if w.contains('.') {
            let i = choose|i: int| 0 <= i < w.len() && w[i] == '.';
            assert(is_hex(w[i]));
        }
    }
}

/// An IPv4 address holds a dot and no colon, so it is no group.
proof fn lemma_ipv4_is_no_group(s: Seq<char>)
    requires
        is_ipv4(s),
    ensures
        !group(s),
        !s.contains(':'),
{
    lemma_ipv4_chars(s);
    if s.contains(':') {
        let i = choose|i: int| 0 <= i < s.len() && s[i] == ':';
        assert(is_digit(s[i]) || s[i] == '.');
    }
    if group(s) {
        lemma_word(s);
        law_fields_are_cut_at_the_character(s, s, '.');
    }
}

/// The groups of a run are counted as they are written.
proof fn lemma_writes(s: Seq<char>, last_run: bool, n: nat)
    ensures
        groups(s, last_run) == Some(n) <==> writes(s, n, last_run),
{
    let f = fields(s, ':');
    law_fields_are_what_was_glued(f, s, ':');
    law_fields_are_cut_at_the_character(s, s, ':');
    if groups(s, last_run) == Some(n) {
        if s.len() == 0 {
            let none = Seq::<Seq<char>>::empty();
            assert(s == glued(none, ':'));
            assert(colon_words(s, none));
        } else if forall|i: int| 0 <= i < f.len() ==> group(#[trigger] f[i]) {
            assert forall|i: int| 0 <= i < f.len() implies hex_word(#[trigger] f[i]) by {
                lemma_word(f[i]);
            }
            assert(colon_words(s, f));
        } else {
            let ws = f.drop_last();
            assert forall|i: int| 0 <= i < ws.len() implies hex_word(#[trigger] ws[i]) by {
                assert(ws[i] == f[i]);
                assert(group(f[i]));
                lemma_word(ws[i]);
            }
            assert(ws.push(f.last()) == f);
            assert(colon_words_and_ipv4(s, ws, f.last()));
        }
    }
    if exists|ws: Seq<Seq<char>>| #[trigger] colon_words(s, ws) && ws.len() == n {
        let ws = choose|ws: Seq<Seq<char>>| #[trigger] colon_words(s, ws) && ws.len() == n;
        lemma_words_counted(s, ws, last_run);
    }
    if last_run && exists|ws: Seq<Seq<char>>, four: Seq<char>| #[trigger]
        colon_words_and_ipv4(s, ws, four) && ws.len() + 2 == n {
        let (ws, four) = choose|ws: Seq<Seq<char>>, four: Seq<char>| #[trigger]
            colon_words_and_ipv4(s, ws, four) && ws.len() + 2 == n;
        lemma_ipv4_counted(s, ws, four);
    }
}

/// Words with colons between them are as many groups.
proof fn lemma_words_counted(s: Seq<char>, ws: Seq<Seq<char>>, last_run: bool)
    requires
        colon_words(s, ws),
    ensures
        groups(s, last_run) == Some(ws.len()),
{
    if ws.len() > 0 {
        assert forall|i: int| 0 <= i < ws.len() implies group(#[trigger] ws[i]) && !ws[i].contains(
            ':',
        ) by {
            lemma_word(ws[i]);
        }
        law_fields_are_what_was_glued(ws, s, ':');
        assert(fields(s, ':') == ws);
        if s.len() == 0 {
            assert(s == Seq::<char>::empty());
            assert(fields(s, ':') == seq![s]);
            assert(group(ws[0]));
        }
    }
}

/// Words and an IPv4 address with colons between them are two groups more than words.
proof fn lemma_ipv4_counted(s: Seq<char>, ws: Seq<Seq<char>>, four: Seq<char>)
    requires
        colon_words_and_ipv4(s, ws, four),
    ensures
        groups(s, true) == Some(ws.len() + 2),
{
    let all = ws.push(four);
    lemma_ipv4_is_no_group(four);
    assert forall|i: int| 0 <= i < ws.len() implies group(#[trigger] ws[i]) && !ws[i].contains(
        ':',
    ) by {
        lemma_word(ws[i]);
    }
    assert forall|i: int| 0 <= i < all.len() implies !(#[trigger] all[i]).contains(':') by {
        if i < ws.len() {
            assert(all[i] == ws[i]);
        }
    }
    law_fields_are_what_was_glued(all, s, ':');
    assert(fields(s, ':') == all);
    assert(all.last() == four);
    assert(!group(all[ws.len() as int]));
    assert forall|i: int| 0 <= i < all.len() - 1 implies group(#[trigger] all[i]) by {
        assert(all[i] == ws[i]);
    }
    if s.len() == 0 {
        assert(s == Seq::<char>::empty());
        assert(fields(s, ':') == seq![s]);
        assert(four == s);
        lemma_ipv4_chars(four);
        law_fields_are_cut_at_the_character(s, s, '.');
    }
}

/// A header that is one literal in brackets names what stands between them, colons and all.
/// From any other header the last colon and what follows it is cut off as the port, and a
/// header without a colon has no port.
pub proof fn law_the_port_is_cut_off(literal: Seq<char>, name: Seq<char>, port: Seq<char>)
    ensures
        !literal.contains(']') ==> host_name(seq!['['] + literal + seq![']']) == literal,
        !port.contains(':') && !(name.len() > 0 && name[0] == '[' && !name.contains(']')
            && port.len() > 0 && port.last() == ']' && !port.drop_last().contains(']'))
            ==> host_name(name + seq![':'] + port) == unbracketed(name),
        !name.contains(':') ==> host_name(name) == unbracketed(name),
{
    if !literal.contains(']') {
        let h = seq!['['] + literal + seq![']'];
        assert forall|i: int| 0 <= i < h.drop_last().len() implies #[trigger] h.drop_last()[i]
            != ']' by {
            if i > 0 {
                assert(h.drop_last()[i] == literal[i - 1]);
                assert(literal.contains(literal[i - 1]));
            }
        }
        assert(h.subrange(1, h.len() - 1) == literal);
    }
    if !port.contains(':') {
        let host = with_port(name, port);
        assert(host == name + seq![':'] + port);
        assert forall|i: int| 0 <= i < port.len() implies #[trigger] port[i] != ':' by {
            assert(port.contains(port[i]));
        }
        lemma_strip_port(name, port);
        if lone_literal(host) {
            let front = host.drop_last();
            assert(port.len() > 0);
            assert(port.last() == ']');
            assert(name.len() > 0 && name[0] == '[') by {
                if name.len() == 0 {
                    assert(host[0] == ':');
                } else {
                    assert(host[0] == name[0]);
                }
            }
            assert(!name.contains(']')) by {
                if name.contains(']') {
                    let i = choose|i: int| 0 <= i < name.len() && name[i] == ']';
                    assert(front[i] == ']');
                }
            }
            assert(!port.drop_last().contains(']')) by {
                if port.drop_last().contains(']') {
                    let i = choose|i: int|
                        0 <= i < port.drop_last().len() && port.drop_last()[i] == ']';
                    assert(front[name.len() + 1 + i] == ']');
                }
            }
        }
    }
    if !name.contains(':') {
        assert forall|i: int| 0 <= i < name.len() implies #[trigger] name[i] != ':' by {
            assert(name.contains(name[i]));
        }
        lemma_no_index(name, ':');
    }
}

/// Brackets around a name are taken off, one pair and no more; other names stay.
pub proof fn law_brackets_are_taken_off(inner: Seq<char>, name: Seq<char>)
    ensures
        unbracketed(seq!['['] + inner + seq![']']) == inner,
        !(name.len() >= 2 && name[0] == '[' && name.last() == ']') ==> unbracketed(name) == name,
{
    let h = seq!['['] + inner + seq![']'];
    assert(h.subrange(1, h.len() - 1) == inner);
}

/// A header passes exactly if what it names is `localhost`, an IPv4 or an IPv6 address, and
/// it is ASCII text without control characters but tabs. Without a header every request
/// passes.
pub proof fn law_who_passes(bytes: Seq<u8>, text: Seq<char>)
    requires
        text.len() == bytes.len(),
        forall|i: int| 0 <= i < bytes.len() ==> #[trigger] text[i] == bytes[i] as char,
    ensures
        guarded(None),
        guarded(Some(bytes)) <==> {
            &&& forall|i: int|
                0 <= i < bytes.len() ==> 32 <= #[trigger] bytes[i] <= 126 || bytes[i] == 9
            &&& host_name(text) == "localhost"@ || is_ipv4(host_name(text)) || is_ipv6(
                host_name(text),
            )
        },
        host_allowed(text) <==> host_name(text) == "localhost"@ || is_ipv4(host_name(text))
            || is_ipv6(host_name(text)),
{
    assert(ascii_text(bytes) == text);
    if forall|i: int| 0 <= i < bytes.len() ==> 32 <= #[trigger] bytes[i] <= 126 || bytes[i] == 9 {
        assert forall|i: int| 0 <= i < bytes.len() implies visible(#[trigger] bytes[i]) by {
        }
    }
    if forall|i: int| 0 <= i < bytes.len() ==> visible(#[trigger] bytes[i]) {
        assert forall|i: int| 0 <= i < bytes.len() implies 32 <= #[trigger] bytes[i] <= 126
            || bytes[i] == 9 by {
            assert(visible(bytes[i]));
        }
    }
}

/// A header that may be missing stands for its bytes.
pub proof fn law_missing_headers_stay_missing(bytes: &[u8])
    ensures
        opt_bytes(Some(bytes)) == Some(bytes@),
        opt_bytes(None) is None,
{
}

} // verus!
