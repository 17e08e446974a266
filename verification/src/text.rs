//! Text as sequences of characters: what the parsers and messages share.

use vstd::prelude::*;
use vstd::utf8::{
    decode_utf8, decode_utf8_encode_utf8, encode_utf8, encode_utf8_decode_utf8,
    encode_utf8_valid_utf8, valid_utf8,
};

verus! {

/// `String::push` appends one character.
pub assume_specification[ String::push ](s: &mut String, c: char)
    ensures
        final(s)@ == old(s)@.push(c),
;

/// What `String::from_utf8_lossy` makes of bytes.
pub uninterp spec fn utf8_lossy(bytes: Seq<u8>) -> Seq<char>;

/// Bytes as text, by `String::from_utf8_lossy`: what is not UTF-8 is replaced, in a way
/// that depends on the bytes alone, and UTF-8 is decoded as it is.
#[verifier::external_body]
fn lossy_text(bytes: &[u8]) -> (r: String)
    ensures
        r@ == utf8_lossy(bytes@),
        valid_utf8(bytes@) ==> r@ == decode_utf8(bytes@),
{
    String::from_utf8_lossy(bytes).into_owned()
}

/// Bytes as text: UTF-8 is decoded as it is, and in other bytes what is not UTF-8 is
/// replaced.
pub open spec fn lossy(bytes: Seq<u8>) -> Seq<char> {
    if valid_utf8(bytes) {
        decode_utf8(bytes)
    } else {
        utf8_lossy(bytes)
    }
}

/// Bytes as text.
pub(crate) fn to_text(bytes: &[u8]) -> (r: String)
    ensures
        r@ == lossy(bytes@),
{
    lossy_text(bytes)
}

/// The text of bytes that are UTF-8.
pub(crate) fn utf8_text(bytes: &[u8]) -> (r: Option<String>)
    ensures
        match r {
            Some(s) => valid_utf8(bytes@) && s@ == decode_utf8(bytes@),
            None => !valid_utf8(bytes@),
        },
{
    let text: String = to_text(bytes);
    proof {
        if valid_utf8(bytes@) {
            decode_utf8_encode_utf8(bytes@);
        }
        encode_utf8_valid_utf8(text@);
    }
    if same_bytes(text.as_str().as_bytes(), bytes) {
        Some(text)
    } else {
        None
    }
}

/// Whether two byte strings are the same.
pub(crate) fn same_bytes(a: &[u8], b: &[u8]) -> (r: bool)
    ensures
        r == (a@ == b@),
{
    if a.len() != b.len() {
        return false;
    }
    let mut i: usize = 0;
    while i < a.len()
        invariant
            i <= a@.len() == b@.len(),
            forall|j: int| 0 <= j < i ==> a@[j] == b@[j],
        decreases a@.len() - i,
    {
        if a[i] != b[i] {
            return false;
        }
        i += 1;
    }
    assert(a@ == b@);
    true
}

/// Whether two strings hold the same characters.
pub(crate) fn same(a: &str, b: &str) -> (r: bool)
    ensures
        r == (a@ == b@),
{
    a.to_owned() == b.to_owned()
}

/// The characters of a string.
pub(crate) fn chars_of(s: &str) -> (r: Vec<char>)
    ensures
        r@ == s@,
{
    let mut out: Vec<char> = Vec::new();
    for c in it: s.chars()
        invariant
            it.seq() == s@,
            out@ == s@.take(it.index() as int),
    {
        out.push(c);
    }
    assert(s@.take(s@.len() as int) == s@);
    out
}

/// The string made of the given characters.
pub(crate) fn string_of(chars: &[char]) -> (r: String)
    ensures
        r@ == chars@,
{
    let mut out = String::new();
    let mut i: usize = 0;
    while i < chars.len()
        invariant
            i <= chars@.len(),
            out@ == chars@.take(i as int),
        decreases chars@.len() - i,
    {
        out.push(chars[i]);
        i += 1;
        assert(chars@.take(i as int) == chars@.take(i - 1).push(chars@[i - 1]));
    }
    assert(chars@.take(chars@.len() as int) == chars@);
    out
}

/// Whether `chars` begins with the characters of `prefix`.
pub(crate) fn begins_with(chars: &[char], prefix: &str) -> (r: bool)
    ensures
        r == prefix@.is_prefix_of(chars@),
{
    let want: Vec<char> = chars_of(prefix);
    if want.len() > chars.len() {
        return false;
    }
    let mut i: usize = 0;
    while i < want.len()
        invariant
            want@ == prefix@,
            want@.len() <= chars@.len(),
            i <= want@.len(),
            forall|j: int| 0 <= j < i ==> want@[j] == chars@[j],
        decreases want@.len() - i,
    {
        if want[i] != chars[i] {
            assert(!(prefix@ == chars@.take(prefix@.len() as int))) by {
                assert(chars@.take(prefix@.len() as int)[i as int] == chars@[i as int]);
            }
            return false;
        }
        i += 1;
    }
    assert(prefix@ == chars@.subrange(0, prefix@.len() as int));
    true
}

/// Whether `part` occurs somewhere in `s`.
pub open spec fn occurs(part: Seq<char>, s: Seq<char>) -> bool {
    exists|i: int|
        0 <= i <= s.len() - part.len() && #[trigger] s.subrange(i, i + part.len()) == part
}

/// The pieces of `s` between the items that `sep` picks out. There is one piece more
/// than there are such items, and a piece may be empty.
pub open spec fn split<A>(s: Seq<A>, sep: spec_fn(A) -> bool) -> Seq<Seq<A>>
    decreases s.len(),
{
    if s.len() == 0 {
        seq![Seq::empty()]
    } else {
        let before = split(s.drop_last(), sep);
        if sep(s.last()) {
            before.push(Seq::empty())
        } else {
            before.drop_last().push(before.last().push(s.last()))
        }
    }
}

/// The pieces of `s` between the occurrences of the character `c`.
pub open spec fn fields(s: Seq<char>, c: char) -> Seq<Seq<char>> {
    split(s, |x: char| x == c)
}

/// The contents of a list of lists.
pub open spec fn views<A>(v: Seq<Vec<A>>) -> Seq<Seq<A>> {
    Seq::new(v.len(), |i: int| v[i]@)
}

/// The contents of a list of strings.
pub open spec fn texts(v: Seq<String>) -> Seq<Seq<char>> {
    Seq::new(v.len(), |i: int| v[i]@)
}

/// The characters of a text that may be missing.
pub open spec fn opt_text(s: Option<String>) -> Option<Seq<char>> {
    match s {
        Some(t) => Some(t@),
        None => None,
    }
}

/// A split has at least one piece.
pub(crate) proof fn lemma_split_nonempty<A>(s: Seq<A>, sep: spec_fn(A) -> bool)
    ensures
        split(s, sep).len() >= 1,
{
    if s.len() > 0 {
    }
}

/// Splits `chars` at the character `c`.
pub(crate) fn fields_of(chars: &[char], c: char) -> (r: Vec<Vec<char>>)
    ensures
        views(r@) == fields(chars@, c),
{
    let mut out: Vec<Vec<char>> = Vec::new();
    let mut cur: Vec<char> = Vec::new();
    let mut i: usize = 0;
    assert(views(out@).push(cur@) == seq![Seq::<char>::empty()]);
    while i < chars.len()
        invariant
            i <= chars@.len(),
            fields(chars@.take(i as int), c) == views(out@).push(cur@),
        decreases chars@.len() - i,
    {
        let ghost before = views(out@).push(cur@);
        let ghost out0 = out@;
        assert(chars@.take(i + 1).drop_last() == chars@.take(i as int));
        assert(before.drop_last() == views(out0));
        if chars[i] == c {
            out.push(cur);
            cur = Vec::new();
            assert(views(out@) == before);
        } else {
            cur.push(chars[i]);
            assert(views(out@).push(cur@) == before.drop_last().push(
                before.last().push(chars@[i as int]),
            ));
        }
        i += 1;
    }
    let ghost whole = views(out@).push(cur@);
    out.push(cur);
    assert(views(out@) == whole);
    assert(chars@.take(chars@.len() as int) == chars@);
    out
}

/// The characters that Unicode calls white space.
pub open spec fn is_space(c: char) -> bool {
    ||| '\u{9}' <= c <= '\u{d}'
    ||| c == ' '
    ||| c == '\u{85}'
    ||| c == '\u{a0}'
    ||| c == '\u{1680}'
    ||| '\u{2000}' <= c <= '\u{200a}'
    ||| c == '\u{2028}'
    ||| c == '\u{2029}'
    ||| c == '\u{202f}'
    ||| c == '\u{205f}'
    ||| c == '\u{3000}'
}

/// Whether `c` is white space.
pub(crate) fn space(c: char) -> (r: bool)
    ensures
        r == is_space(c),
{
    ('\u{9}' <= c && c <= '\u{d}') || c == ' ' || c == '\u{85}' || c == '\u{a0}' || c
        == '\u{1680}' || ('\u{2000}' <= c && c <= '\u{200a}') || c == '\u{2028}' || c
        == '\u{2029}' || c == '\u{202f}' || c == '\u{205f}' || c == '\u{3000}'
}

/// The words of `s`: what stands between stretches of white space.
pub open spec fn words(s: Seq<char>) -> Seq<Seq<char>> {
    split(s, |c: char| is_space(c)).filter(|w: Seq<char>| w.len() > 0)
}

/// Appending an item to a sequence appends it to the filtered sequence, or leaves that alone.
pub(crate) proof fn lemma_filter_push<A>(s: Seq<A>, x: A, keep: spec_fn(A) -> bool)
    ensures
        s.push(x).filter(keep) == if keep(x) {
            s.filter(keep).push(x)
        } else {
            s.filter(keep)
        },
{
    reveal(Seq::filter);
    assert(s.push(x).drop_last() == s);
}

/// The words of `chars`.
pub(crate) fn words_of(chars: &[char]) -> (r: Vec<Vec<char>>)
    ensures
        views(r@) == words(chars@),
{
    let ghost sep = |c: char| is_space(c);
    let ghost keep = |w: Seq<char>| w.len() > 0;
    let ghost mut done: Seq<Seq<char>> = Seq::empty();
    let mut out: Vec<Vec<char>> = Vec::new();
    let mut cur: Vec<char> = Vec::new();
    let mut i: usize = 0;
    proof {
        reveal(Seq::filter);
        assert(done.push(cur@) == seq![Seq::<char>::empty()]);
        assert(views(out@) == done.filter(keep));
    }
    while i < chars.len()
        invariant
            i <= chars@.len(),
            sep == (|c: char| is_space(c)),
            keep == (|w: Seq<char>| w.len() > 0),
            split(chars@.take(i as int), sep) == done.push(cur@),
            views(out@) == done.filter(keep),
        decreases chars@.len() - i,
    {
        let ghost before = done.push(cur@);
        assert(chars@.take(i + 1).drop_last() == chars@.take(i as int));
        assert(before.drop_last() == done);
        if space(chars[i]) {
            proof {
                lemma_filter_push(done, cur@, keep);
                done = before;
            }
            let ghost out0 = out@;
            let ghost cur0 = cur@;
            if cur.len() > 0 {
                out.push(cur);
                assert(views(out@) == views(out0).push(cur0));
            }
            cur = Vec::new();
        } else {
            cur.push(chars[i]);
            assert(done.push(cur@) == before.drop_last().push(
                before.last().push(chars@[i as int]),
            ));
        }
        i += 1;
    }
    assert(chars@.take(chars@.len() as int) == chars@);
    proof {
        lemma_filter_push(done, cur@, keep);
    }
    let ghost out0 = out@;
    let ghost cur0 = cur@;
    if cur.len() > 0 {
        out.push(cur);
        assert(views(out@) == views(out0).push(cur0));
    }
    out
}

/// The decimal digit for `d`.
pub open spec fn digit(d: nat) -> char {
    (48 + d) as char
}

/// A number in decimal, without leading zeros.
pub open spec fn decimal(n: nat) -> Seq<char>
    decreases n,
{
    if n < 10 {
        seq![digit(n)]
    } else {
        decimal(n / 10).push(digit(n % 10))
    }
}

/// Appends `n` in decimal.
pub(crate) fn push_decimal(out: &mut String, n: u64)
    ensures
        final(out)@ == old(out)@ + decimal(n as nat),
    decreases n,
{
    if n >= 10 {
        push_decimal(out, n / 10);
    }
    let d: u8 = (n % 10) as u8;
    out.push((48u8 + d) as char);
    assert(out@ == old(out)@ + decimal(n as nat));
}

/// Whether `c` is a decimal digit.
pub open spec fn is_digit(c: char) -> bool {
    '0' <= c <= '9'
}

/// Whether every character of `s` is a decimal digit.
pub open spec fn all_digits(s: Seq<char>) -> bool {
    forall|i: int| 0 <= i < s.len() ==> is_digit(#[trigger] s[i])
}

/// The number that a run of decimal digits writes.
pub open spec fn digits_value(s: Seq<char>) -> nat
    decreases s.len(),
{
    if s.len() == 0 {
        0
    } else {
        digits_value(s.drop_last()) * 10 + (s.last() as nat - 48) as nat
    }
}

/// The digits of a written number: what follows an optional plus sign.
pub open spec fn unsigned_digits(s: Seq<char>) -> Seq<char> {
    if s.len() > 0 && s[0] == '+' {
        s.skip(1)
    } else {
        s
    }
}

/// The number that `s` writes, if it is an optional plus sign and at least one
/// decimal digit, and the number is at most `max`.
pub open spec fn parsed_uint(s: Seq<char>, max: nat) -> Option<nat> {
    let digits = unsigned_digits(s);
    if digits.len() > 0 && all_digits(digits) && digits_value(digits) <= max {
        Some(digits_value(digits))
    } else {
        None
    }
}

/// More digits never make a smaller number.
proof fn lemma_value_grows(s: Seq<char>, n: int)
    requires
        0 <= n <= s.len(),
        all_digits(s),
    ensures
        digits_value(s.take(n)) <= digits_value(s),
    decreases s.len() - n,
{
    if n < s.len() {
        lemma_value_grows(s, n + 1);
        assert(s.take(n + 1).drop_last() == s.take(n));
        assert(is_digit(s[n]));
    } else {
        assert(s.take(n) == s);
    }
}

/// Reads a port number.
pub(crate) fn parse_u16(s: &str) -> (r: Option<u16>)
    ensures
        match r {
            Some(n) => parsed_uint(s@, 65535) == Some(n as nat),
            None => parsed_uint(s@, 65535) is None,
        },
{
    let chars: Vec<char> = chars_of(s);
    let start: usize = if chars.len() > 0 && chars[0] == '+' {
        1
    } else {
        0
    };
    let ghost digits = unsigned_digits(s@);
    assert(digits == chars@.skip(start as int));
    if chars.len() == start {
        return None;
    }
    let mut n: u32 = 0;
    let mut i: usize = start;
    while i < chars.len()
        invariant
            chars@ == s@,
            start <= i <= chars@.len(),
            digits == chars@.skip(start as int),
            digits == unsigned_digits(s@),
            all_digits(digits.take(i - start)),
            n == digits_value(digits.take(i - start)),
            n <= 65535,
        decreases chars@.len() - i,
    {
        let c: char = chars[i];
        assert(digits[i - start] == c);
        if c < '0' || c > '9' {
            assert(!is_digit(digits[i - start]));
            return None;
        }
        assert(digits.take(i - start + 1).drop_last() == digits.take(i - start));
        let d: u32 = c as u32 - 48;
        n = n * 10 + d;
        assert(n == digits_value(digits.take(i - start + 1)));
        if n > 65535 {
            proof {
                if all_digits(digits) {
                    lemma_value_grows(digits, i - start + 1);
                }
            }
            return None;
        }
        i += 1;
    }
    assert(digits.take(digits.len() as int) == digits);
    Some(n as u16)
}

/// What is written in decimal reads back as the same number.
pub proof fn law_decimal_reads_back(n: nat, max: nat)
    requires
        n <= max,
    ensures
        parsed_uint(decimal(n), max) == Some(n),
{
    lemma_decimal(n);
    assert(is_digit(decimal(n)[0]));
}

/// The decimal form of a number is a nonempty run of digits with that value.
pub(crate) proof fn lemma_decimal(n: nat)
    ensures
        decimal(n).len() > 0,
        all_digits(decimal(n)),
        digits_value(decimal(n)) == n,
    decreases n,
{
    if n < 10 {
        assert(decimal(n).drop_last() == Seq::<char>::empty());
        assert(digits_value(decimal(n).drop_last()) == 0);
    } else {
        lemma_decimal(n / 10);
        assert(decimal(n).drop_last() == decimal(n / 10));
    }
}

/// Text survives the way through bytes; of bytes that are no text, what the replacement
/// gives is taken.
pub proof fn law_text_survives_as_bytes(s: Seq<char>, bytes: Seq<u8>)
    ensures
        lossy(encode_utf8(s)) == s,
        !valid_utf8(bytes) ==> lossy(bytes) == utf8_lossy(bytes),
{
    encode_utf8_valid_utf8(s);
    encode_utf8_decode_utf8(s);
}

/// Splitting cuts at every separator and nowhere else: the pieces of two parts with a
/// separator between them are the pieces of the one and then those of the other, and what
/// holds no separator is one piece.
pub proof fn law_split_cuts_at_separators<A>(
    a: Seq<A>,
    x: A,
    b: Seq<A>,
    sep: spec_fn(A) -> bool,
)
    requires
        sep(x),
    ensures
        split(a.push(x) + b, sep) == split(a, sep) + split(b, sep),
        (forall|i: int| 0 <= i < b.len() ==> !sep(#[trigger] b[i])) ==> split(b, sep) == seq![b],
    decreases b.len(),
{
    let s = a.push(x) + b;
    lemma_split_nonempty(b, sep);
    if b.len() == 0 {
        assert(s.drop_last() == a);
        assert(b == Seq::<A>::empty());
        assert(split(a, sep).push(b) == split(a, sep) + seq![b]);
    } else {
        let t = b.drop_last();
        law_split_cuts_at_separators(a, x, t, sep);
        lemma_split_nonempty(t, sep);
        assert(s.drop_last() == a.push(x) + t);
        assert(s.last() == b.last());
        let p = split(a, sep);
        let q = split(t, sep);
        assert((p + q).last() == q.last());
        assert((p + q).drop_last() == p + q.drop_last());
        assert(split(s, sep) == p + split(b, sep));
        if forall|i: int| 0 <= i < b.len() ==> !sep(#[trigger] b[i]) {
            assert forall|i: int| 0 <= i < t.len() implies !sep(#[trigger] t[i]) by {
                assert(t[i] == b[i]);
            }
            assert(!sep(b[b.len() - 1]));
            assert(t.push(b.last()) == b);
            assert(split(b, sep) == seq![b]);
        }
    }
}

/// The fields of a text are cut at each occurrence of the character and nowhere else: the
/// fields of two parts with the character between them are the fields of the one and then
/// those of the other, and a text without the character is one field.
pub proof fn law_fields_are_cut_at_the_character(a: Seq<char>, b: Seq<char>, c: char)
    ensures
        fields(b, c).len() >= 1,
        fields(a.push(c) + b, c) == fields(a, c) + fields(b, c),
        !b.contains(c) ==> fields(b, c) == seq![b],
    decreases b.len(),
{
    let s = a.push(c) + b;
    if b.len() == 0 {
        assert(s.drop_last() == a);
        assert(b == Seq::<char>::empty());
        assert(fields(a, c).push(b) == fields(a, c) + seq![b]);
    } else {
        let t = b.drop_last();
        law_fields_are_cut_at_the_character(a, t, c);
        assert(s.drop_last() == a.push(c) + t);
        assert(s.last() == b.last());
        let p = fields(a, c);
        let q = fields(t, c);
        assert((p + q).last() == q.last());
        assert((p + q).drop_last() == p + q.drop_last());
        assert(fields(s, c) == p + fields(b, c));
        if !b.contains(c) {
            assert(!t.contains(c)) by {
                if t.contains(c) {
                    let i = choose|i: int| 0 <= i < t.len() && t[i] == c;
                    assert(b[i] == c);
                }
            }
            assert(b[b.len() - 1] != c);
            assert(t.push(b.last()) == b);
            assert(fields(b, c) == seq![b]);
        }
    }
}

/// Filtering two lists in a row is filtering each.
pub(crate) proof fn lemma_filter_concat<A>(a: Seq<A>, b: Seq<A>, keep: spec_fn(A) -> bool)
    ensures
        (a + b).filter(keep) == a.filter(keep) + b.filter(keep),
    decreases b.len(),
{
    if b.len() == 0 {
        assert(a + b == a);
        reveal(Seq::filter);
        assert(a.filter(keep) + b.filter(keep) == a.filter(keep));
    } else {
        let t = b.drop_last();
        lemma_filter_concat(a, t, keep);
        lemma_filter_push(a + t, b.last(), keep);
        lemma_filter_push(t, b.last(), keep);
        assert((a + t).push(b.last()) == a + b);
        assert(t.push(b.last()) == b);
        assert((a + b).filter(keep) == a.filter(keep) + b.filter(keep));
    }
}

/// White space separates words and does nothing else: the words of two parts with white
/// space between them are the words of the one and then those of the other, and a text
/// without white space is one word, or none if it is empty.
pub proof fn law_words_stand_between_spaces(a: Seq<char>, c: char, b: Seq<char>)
    requires
        is_space(c),
    ensures
        words(a.push(c) + b) == words(a) + words(b),
        (forall|i: int| 0 <= i < b.len() ==> !is_space(#[trigger] b[i])) ==> words(b)
            == if b.len() == 0 {
            Seq::<Seq<char>>::empty()
        } else {
            seq![b]
        },
{
    let sep = |x: char| is_space(x);
    let keep = |w: Seq<char>| w.len() > 0;
    let none = Seq::<Seq<char>>::empty();
    law_split_cuts_at_separators(a, c, b, sep);
    lemma_filter_concat(split(a, sep), split(b, sep), keep);
    if forall|i: int| 0 <= i < b.len() ==> !is_space(#[trigger] b[i]) {
        assert(split(b, sep) == seq![b]);
        lemma_filter_push(none, b, keep);
        assert(none.push(b) == seq![b]);
        assert(none.filter(keep) == none) by {
            reveal(Seq::filter);
        }
    }
}

/// The white space of Unicode, by code point.
pub proof fn law_spaces(c: char)
    ensures
        is_space(c) <==> {
            let n = c as u32;
            9 <= n <= 13 || n == 32 || n == 0x85 || n == 0xa0 || n == 0x1680 || 0x2000 <= n
                <= 0x200a || n == 0x2028 || n == 0x2029 || n == 0x202f || n == 0x205f || n
                == 0x3000
        },
{
}

/// Lists stand for what they hold, one for one.
pub proof fn law_lists_stand_for_their_contents<A>(v: Seq<Vec<A>>, s: Seq<String>, t: String)
    ensures
        views(v).len() == v.len(),
        forall|i: int| 0 <= i < v.len() ==> #[trigger] views(v)[i] == v[i]@,
        texts(s).len() == s.len(),
        forall|i: int| 0 <= i < s.len() ==> #[trigger] texts(s)[i] == s[i]@,
        opt_text(Some(t)) == Some(t@),
        opt_text(None) is None,
{
}

/// Digits are read in base ten, from `0` to `9`, the most significant first.
pub proof fn law_digits_are_read_in_base_ten(s: Seq<char>, c: char)
    ensures
        is_digit(c) <==> 48 <= c as u32 <= 57,
        all_digits(s) <==> forall|i: int| 0 <= i < s.len() ==> '0' <= #[trigger] s[i] <= '9',
        digits_value(Seq::empty()) == 0,
        48 <= c as u32 <= 57 ==> digits_value(s.push(c)) == 10 * digits_value(s) + (c as u32 - 48),
{
    assert(s.push(c).drop_last() == s);
}

/// A number is written in digits, without a zero in front unless it is zero, and every way
/// to write a number so is the one that is used.
pub proof fn law_decimal_is_the_shortest(n: nat, s: Seq<char>)
    ensures
        decimal(n).len() > 0,
        all_digits(decimal(n)),
        digits_value(decimal(n)) == n,
        n > 0 ==> decimal(n)[0] != '0',
        n == 0 ==> decimal(n) == seq!['0'],
        s.len() > 0 && all_digits(s) && digits_value(s) == n && (s.len() > 1 ==> s[0] != '0')
            ==> s == decimal(n),
{
    lemma_decimal(n);
    lemma_no_leading_zero(n);
    if s.len() > 0 && all_digits(s) && digits_value(s) == n && (s.len() > 1 ==> s[0] != '0') {
        lemma_one_decimal(s);
    }
}

/// The decimal form of a number above zero does not begin with a zero.
proof fn lemma_no_leading_zero(n: nat)
    ensures
        n > 0 ==> decimal(n).len() > 0 && decimal(n)[0] != '0',
    decreases n,
{
    if n >= 10 {
        lemma_no_leading_zero(n / 10);
        assert(decimal(n)[0] == decimal(n / 10)[0]);
    }
}

/// Digits without a zero in front are the decimal form of their value.
pub(crate) proof fn lemma_one_decimal(s: Seq<char>)
    requires
        s.len() > 0,
        all_digits(s),
        s.len() > 1 ==> s[0] != '0',
    ensures
        s == decimal(digits_value(s)),
        s[0] != '0' ==> digits_value(s) > 0,
    decreases s.len(),
{
    let t = s.drop_last();
    let d = (s.last() as nat - 48) as nat;
    assert(is_digit(s[s.len() - 1]));
    assert(digits_value(s) == digits_value(t) * 10 + d);
    assert(s.last() == digit(d));
    if t.len() == 0 {
        assert(t == Seq::<char>::empty());
        assert(digits_value(t) == 0);
        assert(s == seq![s.last()]);
    } else {
        assert forall|i: int| 0 <= i < t.len() implies is_digit(#[trigger] t[i]) by {
            assert(t[i] == s[i]);
        }
        assert(t[0] == s[0]);
        lemma_one_decimal(t);
        assert(digits_value(s) >= 10);
        assert(digits_value(s) / 10 == digits_value(t));
        assert(digits_value(s) % 10 == d);
        assert(t.push(s.last()) == s);
    }
}

/// A number is read from digits, with a plus sign before them or without, if it is not too
/// large; nothing else is a number.
pub proof fn law_numbers_are_read_from_digits(s: Seq<char>, max: nat, n: nat)
    ensures
        s.len() > 0 && all_digits(s) ==> parsed_uint(s, max) == if digits_value(s) <= max {
            Some(digits_value(s))
        } else {
            None::<nat>
        },
        s.len() > 0 && all_digits(s) ==> parsed_uint(seq!['+'] + s, max) == parsed_uint(s, max),
        parsed_uint(s, max) == Some(n) ==> n <= max && s.len() > 0 && ((all_digits(s)
            && digits_value(s) == n) || (s[0] == '+' && s.len() > 1 && all_digits(s.skip(1))
            && digits_value(s.skip(1)) == n)),
{
    if s.len() > 0 && all_digits(s) {
        assert(is_digit(s[0]));
        assert((seq!['+'] + s).skip(1) == s);
    }
}

/// Some fields with the character between them.
pub open spec fn glued(ps: Seq<Seq<char>>, c: char) -> Seq<char>
    decreases ps.len(),
{
    if ps.len() == 0 {
        Seq::empty()
    } else if ps.len() == 1 {
        ps[0]
    } else {
        glued(ps.drop_last(), c) + seq![c] + ps.last()
    }
}

/// Cutting undoes gluing and gluing undoes cutting: fields without the character, put
/// together with the character between them, are the fields of the text that results, and
/// the fields of any text so put together are the text.
pub proof fn law_fields_are_what_was_glued(ps: Seq<Seq<char>>, s: Seq<char>, c: char)
    ensures
        ps.len() > 0 && (forall|i: int| 0 <= i < ps.len() ==> !(#[trigger] ps[i]).contains(c))
            ==> fields(glued(ps, c), c) == ps,
        glued(fields(s, c), c) == s,
{
    if ps.len() > 0 && (forall|i: int| 0 <= i < ps.len() ==> !(#[trigger] ps[i]).contains(c)) {
        lemma_cut_glued(ps, c);
    }
    lemma_glue_cut(s, c);
}

/// Cutting undoes gluing.
proof fn lemma_cut_glued(ps: Seq<Seq<char>>, c: char)
    requires
        ps.len() > 0,
        forall|i: int| 0 <= i < ps.len() ==> !(#[trigger] ps[i]).contains(c),
    ensures
        fields(glued(ps, c), c) == ps,
    decreases ps.len(),
{
    let last = ps.last();
    assert(!ps[ps.len() - 1].contains(c));
    if ps.len() == 1 {
        law_fields_are_cut_at_the_character(last, last, c);
        assert(ps == seq![last]);
    } else {
        let t = ps.drop_last();
        assert forall|i: int| 0 <= i < t.len() implies !(#[trigger] t[i]).contains(c) by {
            assert(t[i] == ps[i]);
        }
        lemma_cut_glued(t, c);
        law_fields_are_cut_at_the_character(glued(t, c), last, c);
        assert(glued(ps, c) == glued(t, c).push(c) + last);
        assert(t + seq![last] == ps);
    }
}

/// Gluing undoes cutting.
proof fn lemma_glue_cut(s: Seq<char>, c: char)
    ensures
        glued(fields(s, c), c) == s,
    decreases s.len(),
{
    if s.len() == 0 {
        assert(s == Seq::<char>::empty());
        assert(fields(s, c) == seq![s]);
    } else {
        let t = s.drop_last();
        let before = fields(t, c);
        lemma_glue_cut(t, c);
        law_fields_are_cut_at_the_character(t, t, c);
        assert(t.push(s.last()) == s);
        if s.last() == c {
            assert(fields(s, c) == before.push(Seq::empty()));
            assert(fields(s, c).drop_last() == before);
            assert(glued(fields(s, c), c) == s);
        } else {
            let longer = before.last().push(s.last());
            let all = before.drop_last().push(longer);
            assert(fields(s, c) == all);
            assert(all.drop_last() == before.drop_last());
            if before.len() > 1 {
                assert(glued(all, c) == glued(before.drop_last(), c) + seq![c] + longer);
                assert(glued(before, c) == glued(before.drop_last(), c) + seq![c] + before.last());
            }
            assert(glued(all, c) == s);
        }
    }
}

/// Numbers below a thousand take at most three digits.
pub(crate) proof fn lemma_three_digits(n: nat)
    requires
        n < 1000,
    ensures
        decimal(n).len() <= 3,
{
    reveal_with_fuel(decimal, 4);
}

} // verus!
