//! The file browser: what a directory shows, and in which order.

use vstd::prelude::*;
use vstd::utf8::{decode_utf8, decode_utf8_encode_utf8, encode_utf8, valid_utf8};

use crate::api::{error_reply, refuse, Reply, ReplyView};
use crate::json::{
    items_view, object3, text_json, text_value, three_members, Json, JsonView,
};
use crate::path::{
    check_path, components, confined, copy_bytes, has_parent, is_canonical, is_name, join, joined,
    law_entries_are_children, law_entries_stay_within, law_parent_of_an_entry,
    law_parent_stays_within, opt_path, parent, parent_path, same_path, within,
};
use crate::text::{
    chars_of, fields, fields_of, law_fields_are_cut_at_the_character, lemma_filter_concat,
    lemma_filter_push, lossy, opt_text, same, texts, to_text, utf8_text,
};

verus! {

/// The endings of media files.
pub open spec fn media_endings() -> Seq<Seq<char>> {
    seq![
        "mkv"@,
        "mp4"@,
        "webm"@,
        "avi"@,
        "mov"@,
        "ts"@,
        "m2ts"@,
        "wmv"@,
        "flv"@,
        "mp3"@,
        "flac"@,
        "opus"@,
        "m4a"@,
        "ogg"@,
        "wav"@,
        "aac"@,
        "wma"@,
    ]
}

/// The endings of media files.
fn media_list() -> (r: Vec<String>)
    ensures
        texts(r@) == media_endings(),
{
    let mut out: Vec<String> = Vec::new();
    out.push("mkv".to_owned());
    out.push("mp4".to_owned());
    out.push("webm".to_owned());
    out.push("avi".to_owned());
    out.push("mov".to_owned());
    out.push("ts".to_owned());
    out.push("m2ts".to_owned());
    out.push("wmv".to_owned());
    out.push("flv".to_owned());
    out.push("mp3".to_owned());
    out.push("flac".to_owned());
    out.push("opus".to_owned());
    out.push("m4a".to_owned());
    out.push("ogg".to_owned());
    out.push("wav".to_owned());
    out.push("aac".to_owned());
    out.push("wma".to_owned());
    assert(texts(out@) == media_endings());
    out
}

/// An ASCII letter in lower case, any other character as it is.
pub open spec fn lower_char(c: char) -> char {
    if 'A' <= c <= 'Z' {
        (c as u32 + 32) as char
    } else {
        c
    }
}

/// A text with its ASCII letters in lower case.
pub open spec fn lower(s: Seq<char>) -> Seq<char> {
    s.map_values(|c: char| lower_char(c))
}

/// What follows the last dot of a name, and the whole name if it has none.
pub open spec fn ending(name: Seq<char>) -> Seq<char> {
    fields(name, '.').last()
}

/// Whether a name is that of a media file. Letters count the same in both cases.
pub open spec fn is_media(name: Seq<char>) -> bool {
    media_endings().contains(lower(ending(name)))
}

/// Whether the browser shows an entry: not if it is hidden, and of files only media.
pub open spec fn shown(name: Seq<char>, is_dir: bool) -> bool {
    !(name.len() > 0 && name[0] == '.') && (is_dir || is_media(name))
}

/// A character in lower case.
fn lower_of(c: char) -> (r: char)
    ensures
        r == lower_char(c),
{
    if 'A' <= c && c <= 'Z' {
        let n: u8 = c as u8;
        (n + 32u8) as char
    } else {
        c
    }
}

/// Whether a name is that of a media file.
fn media(name: &str) -> (r: bool)
    ensures
        r == is_media(name@),
{
    let chars: Vec<char> = chars_of(name);
    let parts: Vec<Vec<char>> = fields_of(chars.as_slice(), '.');
    proof {
        crate::text::lemma_split_nonempty(name@, |x: char| x == '.');
        assert(fields(name@, '.').len() == parts@.len());
    }
    let last: usize = parts.len() - 1;
    assert(fields(name@, '.')[last as int] == parts@[last as int]@);
    let tail: &Vec<char> = &parts[last];
    let mut small = String::new();
    let mut i: usize = 0;
    while i < tail.len()
        invariant
            i <= tail@.len(),
            small@ == lower(tail@.take(i as int)),
        decreases tail@.len() - i,
    {
        small.push(lower_of(tail[i]));
        i += 1;
        assert(lower(tail@.take(i as int)) == lower(tail@.take(i - 1)).push(
            lower_char(tail@[i - 1]),
        ));
    }
    assert(tail@.take(tail@.len() as int) == tail@);
    let list: Vec<String> = media_list();
    assert(media_endings().len() == list@.len());
    let mut k: usize = 0;
    while k < list.len()
        invariant
            k <= list@.len(),
            texts(list@) == media_endings(),
            small@ == lower(ending(name@)),
            forall|j: int| 0 <= j < k ==> #[trigger] media_endings()[j] != small@,
        decreases list@.len() - k,
    {
        assert(media_endings()[k as int] == list@[k as int]@);
        if same(list[k].as_str(), small.as_str()) {
            return true;
        }
        k += 1;
    }
    false
}

/// Whether the browser shows an entry with this name.
pub fn shows(name: &str, is_dir: bool) -> (r: bool)
    ensures
        r == shown(name@, is_dir),
{
    if name.unicode_len() > 0 && name.get_char(0) == '.' {
        return false;
    }
    is_dir || media(name)
}

/// An entry of the list that a client sees.
pub struct Listed {
    pub name: String,
    pub is_dir: bool,
    pub path: String,
}

/// What a [`Listed`] stands for.
#[verifier::ext_equal]
pub struct ListedView {
    pub name: Seq<char>,
    pub is_dir: bool,
    pub path: Seq<char>,
}

impl View for Listed {
    type V = ListedView;

    open spec fn view(&self) -> ListedView {
        ListedView { name: self.name@, is_dir: self.is_dir, path: self.path@ }
    }
}

/// What a list of entries stands for.
pub open spec fn listed_views(v: Seq<Listed>) -> Seq<ListedView> {
    Seq::new(v.len(), |i: int| v[i]@)
}

/// Whether `a` stands before `b` in the order of texts: character by character, by code
/// point, and a text before its extensions.
pub open spec fn text_less(a: Seq<char>, b: Seq<char>) -> bool
    decreases a.len(),
{
    if b.len() == 0 {
        false
    } else if a.len() == 0 {
        true
    } else {
        a[0] < b[0] || (a[0] == b[0] && text_less(a.skip(1), b.skip(1)))
    }
}

/// Whether `a` stands before `b` in a list: directories before files, and each by name.
pub open spec fn before(a: ListedView, b: ListedView) -> bool {
    (a.is_dir && !b.is_dir) || (a.is_dir == b.is_dir && text_less(a.name, b.name))
}

/// Whether two entries have the same place in the order.
pub open spec fn same_place(a: ListedView, b: ListedView) -> bool {
    a.is_dir == b.is_dir && a.name == b.name
}

/// Whether no entry of a list stands after one that it should stand before.
pub open spec fn ordered(s: Seq<ListedView>) -> bool {
    forall|i: int, j: int| 0 <= i < j < s.len() ==> !before(#[trigger] s[j], #[trigger] s[i])
}

/// The entries of a list that have the same place in the order as `k`.
pub open spec fn at_place(s: Seq<ListedView>, k: ListedView) -> Seq<ListedView> {
    s.filter(|e: ListedView| same_place(e, k))
}

/// Whether `s` is the list `input` in order. Entries that have the same place keep the
/// order in which they came.
pub open spec fn sorting_of(s: Seq<ListedView>, input: Seq<ListedView>) -> bool {
    ordered(s) && forall|k: ListedView| #[trigger] at_place(s, k) == at_place(input, k)
}

/// Nothing lies before itself.
proof fn lemma_less_irreflexive(a: Seq<char>)
    ensures
        !text_less(a, a),
    decreases a.len(),
{
    if a.len() > 0 {
        lemma_less_irreflexive(a.skip(1));
    }
}

/// If `a` lies before `c`, then `a` lies before any `b` or that lies before `c`.
proof fn lemma_less_splits(a: Seq<char>, b: Seq<char>, c: Seq<char>)
    requires
        text_less(a, c),
    ensures
        text_less(a, b) || text_less(b, c),
    decreases a.len(),
{
    if a.len() > 0 && b.len() > 0 && a[0] == b[0] && b[0] == c[0] {
        lemma_less_splits(a.skip(1), b.skip(1), c.skip(1));
    }
}

/// Of two different texts one lies before the other.
proof fn lemma_less_total(a: Seq<char>, b: Seq<char>)
    ensures
        a != b ==> text_less(a, b) || text_less(b, a),
    decreases a.len(),
{
    if a.len() > 0 && b.len() > 0 {
        lemma_less_total(a.skip(1), b.skip(1));
        if a.skip(1) == b.skip(1) && a[0] == b[0] {
            assert(a == seq![a[0]] + a.skip(1));
            assert(b == seq![b[0]] + b.skip(1));
        }
    } else if a.len() == 0 && b.len() == 0 {
        assert(a == b);
    }
}

/// Whether `a` stands before `b` in the order of texts.
fn less(a: &str, b: &str) -> (r: bool)
    ensures
        r == text_less(a@, b@),
{
    let x: Vec<char> = chars_of(a);
    let y: Vec<char> = chars_of(b);
    let mut i: usize = 0;
    assert(a@.skip(0) == a@);
    assert(b@.skip(0) == b@);
    while i < x.len() && i < y.len()
        invariant
            x@ == a@,
            y@ == b@,
            i <= x@.len(),
            i <= y@.len(),
            text_less(a@, b@) == text_less(a@.skip(i as int), b@.skip(i as int)),
        decreases x@.len() - i,
    {
        assert(a@.skip(i as int).skip(1) == a@.skip(i + 1));
        assert(b@.skip(i as int).skip(1) == b@.skip(i + 1));
        if x[i] < y[i] {
            return true;
        }
        if x[i] != y[i] {
            return false;
        }
        i += 1;
    }
    i < y.len()
}

/// Whether `a` stands before `b` in a list.
fn goes_before(a: &Listed, b: &Listed) -> (r: bool)
    ensures
        r == before(a@, b@),
{
    if a.is_dir != b.is_dir {
        a.is_dir
    } else {
        less(a.name.as_str(), b.name.as_str())
    }
}

/// Of a list without entries at a place none is left.
proof fn lemma_none_at_place(s: Seq<ListedView>, k: ListedView)
    requires
        forall|i: int| 0 <= i < s.len() ==> !same_place(#[trigger] s[i], k),
    ensures
        at_place(s, k) == Seq::<ListedView>::empty(),
    decreases s.len(),
{
    reveal(Seq::filter);
    if s.len() > 0 {
        assert forall|i: int| 0 <= i < s.drop_last().len() implies !same_place(
            #[trigger] s.drop_last()[i],
            k,
        ) by {
            assert(s.drop_last()[i] == s[i]);
        }
        lemma_none_at_place(s.drop_last(), k);
        assert(s.last() == s[s.len() - 1]);
    }
}

/// What is picked from two lists in a row is what is picked from each.
proof fn lemma_at_place_concat(a: Seq<ListedView>, b: Seq<ListedView>, k: ListedView)
    ensures
        at_place(a + b, k) == at_place(a, k) + at_place(b, k),
    decreases b.len(),
{
    reveal(Seq::filter);
    if b.len() == 0 {
        assert(a + b == a);
        assert(at_place(a, k) + at_place(b, k) == at_place(a, k));
    } else {
        lemma_at_place_concat(a, b.drop_last(), k);
        assert((a + b).drop_last() == a + b.drop_last());
        assert((a + b).last() == b.last());
        assert(at_place(a + b, k) == at_place(a, k) + at_place(b, k));
    }
}

/// Putting an entry behind those that do not stand after it keeps a list in order.
proof fn lemma_insert(s: Seq<ListedView>, input: Seq<ListedView>, p: int, x: ListedView)
    requires
        sorting_of(s, input),
        0 <= p <= s.len(),
        p > 0 ==> !before(x, s[p - 1]),
        forall|j: int| p <= j < s.len() ==> before(x, #[trigger] s[j]),
    ensures
        sorting_of(s.insert(p, x), input.push(x)),
{
    let t = s.insert(p, x);
    assert(t == s.take(p).push(x) + s.skip(p));
    assert forall|q: int| 0 <= q < p implies !before(x, #[trigger] s[q]) by {
        if q < p - 1 && before(x, s[q]) {
            assert(!before(s[p - 1], s[q]));
            if x.is_dir == s[q].is_dir && s[q].is_dir == s[p - 1].is_dir {
                lemma_less_splits(x.name, s[p - 1].name, s[q].name);
            }
        }
    }
    assert forall|i: int, j: int| 0 <= i < j < t.len() implies !before(
        #[trigger] t[j],
        #[trigger] t[i],
    ) by {
        if i == p {
            assert(t[j] == s[j - 1]);
            assert(before(x, s[j - 1]));
            if before(s[j - 1], x) {
                lemma_before_asymmetric(x, s[j - 1]);
            }
        } else if j == p {
            assert(t[i] == s[i]);
        } else {
            let a = if i < p {
                i
            } else {
                i - 1
            };
            let b = if j < p {
                j
            } else {
                j - 1
            };
            assert(t[i] == s[a] && t[j] == s[b]);
        }
    }
    assert forall|k: ListedView| #[trigger] at_place(t, k) == at_place(input.push(x), k) by {
        let keep = |e: ListedView| same_place(e, k);
        assert(s == s.take(p) + s.skip(p));
        lemma_at_place_concat(s.take(p), s.skip(p), k);
        lemma_at_place_concat(s.take(p).push(x), s.skip(p), k);
        lemma_filter_push(s.take(p), x, keep);
        lemma_filter_push(input, x, keep);
        assert(at_place(s, k) == at_place(input, k));
        if same_place(x, k) {
            assert forall|i: int| 0 <= i < s.skip(p).len() implies !same_place(
                #[trigger] s.skip(p)[i],
                k,
            ) by {
                assert(s.skip(p)[i] == s[p + i]);
                lemma_less_irreflexive(x.name);
            }
            lemma_none_at_place(s.skip(p), k);
            assert(at_place(t, k) == at_place(s, k).push(x));
        }
    }
}

/// Two entries do not each stand before the other.
proof fn lemma_before_asymmetric(a: ListedView, b: ListedView)
    ensures
        !(before(a, b) && before(b, a)),
{
    if before(a, b) && before(b, a) {
        lemma_less_asymmetric(a.name, b.name);
    }
}

/// Two texts do not each lie before the other.
proof fn lemma_less_asymmetric(a: Seq<char>, b: Seq<char>)
    ensures
        !(text_less(a, b) && text_less(b, a)),
    decreases a.len(),
{
    if a.len() > 0 && b.len() > 0 {
        lemma_less_asymmetric(a.skip(1), b.skip(1));
    }
}

/// Sorts a list: directories first, each kind by name. Entries with the same name keep
/// their order.
pub fn sort_entries(entries: Vec<Listed>) -> (r: Vec<Listed>)
    ensures
        sorting_of(listed_views(r@), listed_views(entries@)),
{
    let ghost input = listed_views(entries@);
    let mut rest: Vec<Listed> = entries;
    let mut out: Vec<Listed> = Vec::new();
    let ghost mut done: int = 0;
    assert(listed_views(out@) == input.take(0));
    while rest.len() > 0
        invariant
            done + rest@.len() == input.len(),
            0 <= done,
            listed_views(rest@) == input.skip(done),
            sorting_of(listed_views(out@), input.take(done)),
        decreases rest@.len(),
    {
        let ghost rest0 = rest@;
        let x: Listed = rest.remove(0);
        assert(x@ == input[done]) by {
            assert(listed_views(rest0)[0] == rest0[0]@);
            assert(input.skip(done)[0] == input[done]);
        }
        assert(listed_views(rest@) == input.skip(done + 1)) by {
            assert forall|i: int| 0 <= i < rest@.len() implies listed_views(rest@)[i] == input.skip(
                done + 1,
            )[i] by {
                assert(rest@[i] == rest0[i + 1]);
                assert(listed_views(rest0)[i + 1] == input.skip(done)[i + 1]);
            }
        }
        let ghost s = listed_views(out@);
        let mut p: usize = out.len();
        while p > 0 && goes_before(&x, &out[p - 1])
            invariant
                p <= out@.len(),
                s == listed_views(out@),
                forall|j: int| p <= j < out@.len() ==> before(x@, #[trigger] s[j]),
            decreases p,
        {
            p -= 1;
        }
        proof {
            lemma_insert(s, input.take(done), p as int, x@);
            assert(input.take(done + 1) == input.take(done).push(x@));
        }
        out.insert(p, x);
        assert(listed_views(out@) == s.insert(p as int, x@));
        proof {
            done = done + 1;
        }
    }
    assert(input.take(done) == input);
    out
}

/// What is at the place of an entry of a list is not empty.
proof fn lemma_some_at_place(s: Seq<ListedView>, i: int)
    requires
        0 <= i < s.len(),
    ensures
        at_place(s, s[i]).len() > 0,
    decreases s.len(),
{
    reveal(Seq::filter);
    if i < s.len() - 1 {
        assert(s.drop_last()[i] == s[i]);
        lemma_some_at_place(s.drop_last(), i);
    }
}

/// What is picked from a list is in it.
proof fn lemma_from_list(s: Seq<ListedView>, k: ListedView, i: int)
    requires
        0 <= i < at_place(s, k).len(),
    ensures
        exists|j: int| 0 <= j < s.len() && #[trigger] s[j] == at_place(s, k)[i],
        same_place(at_place(s, k)[i], k),
    decreases s.len(),
{
    reveal(Seq::filter);
    if same_place(s.last(), k) && i == at_place(s, k).len() - 1 {
        assert(s[s.len() - 1] == at_place(s, k)[i]);
    } else {
        lemma_from_list(s.drop_last(), k, i);
        let j = choose|j: int|
            0 <= j < s.drop_last().len() && #[trigger] s.drop_last()[j] == at_place(
                s.drop_last(),
                k,
            )[i];
        assert(s[j] == at_place(s, k)[i]);
    }
}

/// There is only one way to put a list in order.
pub proof fn law_order_is_unique(
    s: Seq<ListedView>,
    t: Seq<ListedView>,
    input: Seq<ListedView>,
)
    requires
        sorting_of(s, input),
        sorting_of(t, input),
    ensures
        s == t,
{
    assert forall|k: ListedView| #[trigger] at_place(s, k) == at_place(t, k) by {
        assert(at_place(s, k) == at_place(input, k));
        assert(at_place(t, k) == at_place(input, k));
    }
    lemma_same_order(s, t);
}

/// Two ordered lists with the same entries at every place are the same.
proof fn lemma_same_order(s: Seq<ListedView>, t: Seq<ListedView>)
    requires
        ordered(s),
        ordered(t),
        forall|k: ListedView| #[trigger] at_place(s, k) == at_place(t, k),
    ensures
        s == t,
    decreases s.len(),
{
    if s.len() == 0 {
        if t.len() > 0 {
            lemma_some_at_place(t, 0);
            lemma_none_at_place(s, t[0]);
            assert(at_place(s, t[0]) == at_place(t, t[0]));
        }
        assert(s == t);
    } else if t.len() == 0 {
        lemma_some_at_place(s, 0);
        lemma_none_at_place(t, s[0]);
        assert(at_place(s, s[0]) == at_place(t, s[0]));
    } else {
        let a = s.last();
        let b = t.last();
        let n = s.len() - 1;
        let m = t.len() - 1;
        assert(a == s[n] && b == t[m]);
        lemma_some_at_place(s, n);
        lemma_some_at_place(t, m);
        assert(at_place(s, a) == at_place(t, a));
        assert(at_place(s, b) == at_place(t, b));
        lemma_from_list(s, b, 0);
        lemma_from_list(t, a, 0);
        let i = choose|i: int| 0 <= i < s.len() && #[trigger] s[i] == at_place(s, b)[0];
        let j = choose|j: int| 0 <= j < t.len() && #[trigger] t[j] == at_place(t, a)[0];
        lemma_less_total(a.name, b.name);
        assert(!before(a, b)) by {
            if before(a, b) {
                lemma_less_irreflexive(a.name);
                if i < n {
                    assert(!before(s[n], s[i]));
                }
            }
        }
        assert(!before(b, a)) by {
            if before(b, a) {
                lemma_less_irreflexive(a.name);
                if j < m {
                    assert(!before(t[m], t[j]));
                }
            }
        }
        assert(same_place(a, b));
        let keep = |e: ListedView| same_place(e, a);
        lemma_filter_push(s.drop_last(), a, keep);
        lemma_filter_push(t.drop_last(), b, keep);
        assert(s.drop_last().push(a) == s);
        assert(t.drop_last().push(b) == t);
        assert(at_place(s, a).last() == a);
        assert(at_place(t, a).last() == b);
        assert(a == b);
        assert forall|k: ListedView| #[trigger] at_place(s.drop_last(), k) == at_place(
            t.drop_last(),
            k,
        ) by {
            let by_k = |e: ListedView| same_place(e, k);
            lemma_filter_push(s.drop_last(), a, by_k);
            lemma_filter_push(t.drop_last(), a, by_k);
            assert(at_place(s, k) == at_place(t, k));
            if same_place(a, k) {
                assert(at_place(s.drop_last(), k) == at_place(s, k).drop_last());
                assert(at_place(t.drop_last(), k) == at_place(t, k).drop_last());
            }
        }
        lemma_same_order(s.drop_last(), t.drop_last());
    }
}

/// An entry as a client sees it.
pub open spec fn entry_json(e: ListedView) -> JsonView {
    object3(
        "name"@,
        text_json(e.name),
        "is_dir"@,
        JsonView::Bool(e.is_dir),
        "path"@,
        text_json(e.path),
    )
}

/// A text that may be missing: `null` without it.
pub open spec fn opt_text_json(s: Option<Seq<char>>) -> JsonView {
    match s {
        Some(t) => text_json(t),
        None => JsonView::Null,
    }
}

/// The answer that lists a directory.
pub open spec fn listing_reply(
    path: Seq<char>,
    parent: Option<Seq<char>>,
    entries: Seq<ListedView>,
) -> ReplyView {
    ReplyView {
        status: 200,
        body: object3(
            "path"@,
            text_json(path),
            "parent"@,
            opt_text_json(parent),
            "entries"@,
            JsonView::Array(entries.map_values(|e: ListedView| entry_json(e))),
        ),
    }
}

/// The answer that lists a directory, its entries in order.
pub fn listing(path: String, parent: Option<String>, entries: Vec<Listed>) -> (r: Reply)
    ensures
        exists|s: Seq<ListedView>|
            #[trigger] sorting_of(s, listed_views(entries@)) && r@ == listing_reply(
                path@,
                opt_text(parent),
                s,
            ),
{
    let sorted: Vec<Listed> = sort_entries(entries);
    let ghost s = listed_views(sorted@);
    let mut items: Vec<Json> = Vec::new();
    let mut i: usize = 0;
    let ghost shape = |e: ListedView| entry_json(e);
    assert(items_view(items@) == s.take(0).map_values(shape));
    while i < sorted.len()
        invariant
            i <= sorted@.len(),
            s == listed_views(sorted@),
            shape == (|e: ListedView| entry_json(e)),
            items_view(items@) == s.take(i as int).map_values(shape),
        decreases sorted@.len() - i,
    {
        let e: &Listed = &sorted[i];
        let item: Json = three_members(
            "name",
            text_value(e.name.as_str()),
            "is_dir",
            Json::Bool(e.is_dir),
            "path",
            text_value(e.path.as_str()),
        );
        let ghost items0 = items@;
        items.push(item);
        i += 1;
        assert(items_view(items@) =~= items_view(items0).push(item@));
        assert(s.take(i as int).map_values(shape) =~= s.take(i - 1).map_values(shape).push(
            entry_json(s[i - 1]),
        ));
    }
    assert(s.take(s.len() as int) == s);
    let up: Json = match &parent {
        Some(p) => text_value(p.as_str()),
        None => Json::Null,
    };
    let body: Json = three_members(
        "path",
        text_value(path.as_str()),
        "parent",
        up,
        "entries",
        Json::Array(items),
    );
    Reply { status: 200, body }
}

/// An entry of a directory, as it is on disk.
pub struct Entry {
    pub name: Vec<u8>,
    pub is_dir: bool,
}

/// What an [`Entry`] stands for.
#[verifier::ext_equal]
pub struct EntryView {
    pub name: Seq<u8>,
    pub is_dir: bool,
}

impl View for Entry {
    type V = EntryView;

    open spec fn view(&self) -> EntryView {
        EntryView { name: self.name@, is_dir: self.is_dir }
    }
}

/// What the entries of a directory stand for.
pub open spec fn entry_views(v: Seq<Entry>) -> Seq<EntryView> {
    Seq::new(v.len(), |i: int| v[i]@)
}

/// The entries of a directory that the browser shows.
pub open spec fn visible(entries: Seq<EntryView>) -> Seq<EntryView> {
    entries.filter(|e: EntryView| shown(lossy(e.name), e.is_dir))
}

/// An entry of a directory as the list has it.
pub open spec fn listed(dir: Seq<u8>, e: EntryView) -> ListedView {
    ListedView {
        name: lossy(e.name),
        is_dir: e.is_dir,
        path: decode_utf8(joined(dir, e.name)),
    }
}

/// The entries of a directory that the browser shows, as the list has them.
pub open spec fn listing_of(dir: Seq<u8>, entries: Seq<EntryView>) -> Seq<ListedView> {
    visible(entries).map_values(|e: EntryView| listed(dir, e))
}

/// Whether JSON can hold the paths of a list.
pub open spec fn expressible(dir: Seq<u8>, entries: Seq<EntryView>) -> bool {
    &&& valid_utf8(dir)
    &&& forall|i: int|
        0 <= i < visible(entries).len() ==> valid_utf8(
            joined(dir, (#[trigger] visible(entries)[i]).name),
        )
}

/// The parent directory that the browser offers: none at the root.
pub open spec fn offered_parent(root: Seq<u8>, dir: Seq<u8>) -> Option<Seq<char>> {
    if components(dir) == components(root) {
        None
    } else {
        match parent_path(dir) {
            Some(p) => Some(lossy(p)),
            None => None,
        }
    }
}

/// The directory that a client asks for: what its query names, or else the root.
pub fn requested_path(root: &[u8], query: Option<&str>) -> (r: Vec<u8>)
    ensures
        r@ == match query {
            Some(q) => encode_utf8(q@),
            None => root@,
        },
{
    match query {
        Some(q) => copy_bytes(q.as_bytes()),
        None => copy_bytes(root),
    }
}

/// Decides whether a directory may be listed. `canonical` is what became of the
/// requested path, see [`check_path`].
pub fn browse_directory(root: &[u8], canonical: Option<Vec<u8>>) -> (r: Result<Vec<u8>, Reply>)
    ensures
        match confined(root@, opt_path(canonical)) {
            Some(dir) => r matches Ok(d) && d@ == dir,
            None => r matches Err(reply) && reply@ == error_reply(403, "path outside root"@),
        },
{
    match check_path(root, canonical) {
        Some(dir) => Ok(dir),
        None => Err(refuse(403, "path outside root")),
    }
}

/// The answer for a directory that may be listed. `entries` is what it holds, or nothing
/// if it cannot be read. There is no answer if a path in it is not UTF-8.
pub fn api_browse(root: &[u8], dir: &[u8], entries: Option<Vec<Entry>>) -> (r: Option<Reply>)
    ensures
        match entries {
            None => r matches Some(reply) && reply@ == error_reply(
                404,
                "cannot read directory"@,
            ),
            Some(found) => {
                let all = entry_views(found@);
                if expressible(dir@, all) {
                    r matches Some(reply) && exists|s: Seq<ListedView>|
                        #[trigger] sorting_of(s, listing_of(dir@, all)) && reply@ == listing_reply(
                            decode_utf8(dir@),
                            offered_parent(root@, dir@),
                            s,
                        )
                } else {
                    r is None
                }
            },
        },
{
    let found: Vec<Entry> = match entries {
        Some(found) => found,
        None => {
            return Some(refuse(404, "cannot read directory"));
        },
    };
    let ghost all = entry_views(found@);
    let ghost keep = |e: EntryView| shown(lossy(e.name), e.is_dir);
    let ghost shape = |e: EntryView| listed(dir@, e);
    let mut out: Vec<Listed> = Vec::new();
    let mut i: usize = 0;
    assert(all.take(0).filter(keep) == Seq::<EntryView>::empty()) by {
        reveal(Seq::filter);
    }
    assert(listed_views(out@) == all.take(0).filter(keep).map_values(shape));
    while i < found.len()
        invariant
            i <= found@.len(),
            entries == Some(found),
            all == entry_views(found@),
            keep == (|e: EntryView| shown(lossy(e.name), e.is_dir)),
            shape == (|e: EntryView| listed(dir@, e)),
            listed_views(out@) == all.take(i as int).filter(keep).map_values(shape),
            forall|j: int|
                0 <= j < all.take(i as int).filter(keep).len() ==> valid_utf8(
                    joined(dir@, (#[trigger] all.take(i as int).filter(keep)[j]).name),
                ),
        decreases found@.len() - i,
    {
        let ghost seen = all.take(i as int).filter(keep);
        let ghost e = all[i as int];
        proof {
            assert(e == found@[i as int]@);
            lemma_filter_push(all.take(i as int), e, keep);
            assert(all.take(i + 1) == all.take(i as int).push(e));
        }
        let name: String = to_text(found[i].name.as_slice());
        let is_dir: bool = found[i].is_dir;
        if shows(name.as_str(), is_dir) {
            let full: Vec<u8> = join(dir, found[i].name.as_slice());
            let path: String = match utf8_text(full.as_slice()) {
                Some(path) => path,
                None => {
                    proof {
                        let n = seen.len();
                        lemma_filter_keeps(all, keep, i + 1, n as int);
                        assert(visible(all)[n as int] == e);
                        assert(!expressible(dir@, all));
                    }
                    return None;
                },
            };
            let ghost out0 = out@;
            let item = Listed { name, is_dir, path };
            out.push(item);
            assert(listed_views(out@) =~= listed_views(out0).push(item@));
            assert(seen.push(e).map_values(shape) =~= seen.map_values(shape).push(shape(e)));
        }
        i += 1;
    }
    assert(all.take(all.len() as int) == all);
    assert(visible(all) == all.filter(keep));
    assert(listed_views(out@) == listing_of(dir@, all));
    let shown_dir: String = match utf8_text(dir) {
        Some(text) => text,
        None => {
            return None;
        },
    };
    let up: Option<String> = if same_path(dir, root) {
        None
    } else {
        match parent(dir) {
            Some(p) => Some(to_text(p.as_slice())),
            None => None,
        }
    };
    assert(opt_text(up) == offered_parent(root@, dir@));
    assert(expressible(dir@, all));
    Some(listing(shown_dir, up, out))
}

/// What is picked from the beginning of a list is the beginning of what is picked.
proof fn lemma_filter_keeps(
    s: Seq<EntryView>,
    keep: spec_fn(EntryView) -> bool,
    n: int,
    j: int,
)
    requires
        0 <= n <= s.len(),
        0 <= j < s.take(n).filter(keep).len(),
    ensures
        j < s.filter(keep).len(),
        s.filter(keep)[j] == s.take(n).filter(keep)[j],
    decreases s.len() - n,
{
    if n < s.len() {
        lemma_filter_push(s.take(n), s[n], keep);
        assert(s.take(n + 1) == s.take(n).push(s[n]));
        lemma_filter_keeps(s, keep, n + 1, j);
    } else {
        assert(s.take(n) == s);
    }
}

/// How often an entry occurs in a list is decided at its place.
proof fn lemma_count_at_place(s: Seq<ListedView>, k: ListedView)
    ensures
        s.to_multiset().count(k) == at_place(s, k).to_multiset().count(k),
    decreases s.len(),
{
    broadcast use vstd::seq_lib::group_to_multiset_ensures;

    if s.len() == 0 {
        lemma_none_at_place(s, k);
        assert(s == Seq::<ListedView>::empty());
    } else {
        let t = s.drop_last();
        assert(t.push(s.last()) == s);
        lemma_count_at_place(t, k);
        lemma_filter_push(t, s.last(), |e: ListedView| same_place(e, k));
    }
}

/// Putting a list in order neither drops an entry nor adds one.
pub proof fn law_order_keeps_entries(s: Seq<ListedView>, input: Seq<ListedView>)
    requires
        sorting_of(s, input),
    ensures
        s.to_multiset() == input.to_multiset(),
{
    assert forall|k: ListedView| s.to_multiset().count(k) == input.to_multiset().count(k) by {
        lemma_count_at_place(s, k);
        lemma_count_at_place(input, k);
        assert(at_place(s, k) == at_place(input, k));
    }
}

/// What is picked from a directory is in it, and is to be shown.
proof fn lemma_visible(entries: Seq<EntryView>, e: EntryView)
    ensures
        visible(entries).contains(e) == (entries.contains(e) && shown(
            lossy(e.name),
            e.is_dir,
        )),
    decreases entries.len(),
{
    let keep = |e: EntryView| shown(lossy(e.name), e.is_dir);
    if entries.len() == 0 {
        reveal(Seq::filter);
        assert(visible(entries) == Seq::<EntryView>::empty());
    } else {
        let t = entries.drop_last();
        let x = entries.last();
        assert(t.push(x) == entries);
        lemma_visible(t, e);
        lemma_filter_push(t, x, keep);
        broadcast use vstd::seq_lib::group_seq_properties;

        assert(visible(entries) == if keep(x) {
            visible(t).push(x)
        } else {
            visible(t)
        });
    }
}

/// An ordered list has the members that it had before.
proof fn lemma_same_members(s: Seq<ListedView>, input: Seq<ListedView>, x: ListedView)
    requires
        sorting_of(s, input),
    ensures
        s.contains(x) == input.contains(x),
{
    law_order_keeps_entries(s, input);
    s.to_multiset_ensures();
    input.to_multiset_ensures();
    assert(s.contains(x) <==> s.to_multiset().count(x) > 0);
    assert(input.contains(x) <==> input.to_multiset().count(x) > 0);
}

/// A member of a list stands for an entry of the directory that is to be shown.
proof fn lemma_listed_is_shown(
    dir: Seq<u8>,
    entries: Seq<EntryView>,
    s: Seq<ListedView>,
    i: int,
)
    requires
        sorting_of(s, listing_of(dir, entries)),
        0 <= i < s.len(),
    ensures
        shown(s[i].name, s[i].is_dir),
        exists|e: EntryView| #[trigger] entries.contains(e) && s[i] == listed(dir, e),
{
    let all = listing_of(dir, entries);
    let x = s[i];
    assert(s.contains(x));
    lemma_same_members(s, all, x);
    let j = choose|j: int| 0 <= j < all.len() && all[j] == x;
    let e = visible(entries)[j];
    assert(x == listed(dir, e));
    assert(visible(entries).contains(e));
    lemma_visible(entries, e);
    assert(entries.contains(e));
}

/// An entry of the directory that is to be shown is a member of the list.
proof fn lemma_shown_is_listed(
    dir: Seq<u8>,
    entries: Seq<EntryView>,
    s: Seq<ListedView>,
    e: EntryView,
)
    requires
        sorting_of(s, listing_of(dir, entries)),
        entries.contains(e),
        shown(lossy(e.name), e.is_dir),
    ensures
        s.contains(listed(dir, e)),
{
    let all = listing_of(dir, entries);
    lemma_visible(entries, e);
    let j = choose|j: int| 0 <= j < visible(entries).len() && visible(entries)[j] == e;
    assert(all[j] == listed(dir, e));
    assert(all.contains(listed(dir, e)));
    lemma_same_members(s, all, listed(dir, e));
}

/// A list shows the entries of the directory that are not hidden, and of files only
/// media; and it shows every one of them.
pub proof fn law_list_shows_what_is_shown(
    dir: Seq<u8>,
    entries: Seq<EntryView>,
    s: Seq<ListedView>,
)
    requires
        sorting_of(s, listing_of(dir, entries)),
    ensures
        forall|i: int| #![trigger s[i]]
            0 <= i < s.len() ==> shown(s[i].name, s[i].is_dir) && exists|e: EntryView|
                #[trigger] entries.contains(e) && s[i] == listed(dir, e),
        forall|e: EntryView| #[trigger]
            entries.contains(e) && shown(lossy(e.name), e.is_dir) ==> s.contains(
                listed(dir, e),
            ),
{
    assert forall|i: int| #![trigger s[i]] 0 <= i < s.len() implies shown(s[i].name, s[i].is_dir)
        && exists|e: EntryView| #[trigger] entries.contains(e) && s[i] == listed(dir, e) by {
        lemma_listed_is_shown(dir, entries, s, i);
    }
    assert forall|e: EntryView| #[trigger]
        entries.contains(e) && shown(lossy(e.name), e.is_dir) implies s.contains(
        listed(dir, e),
    ) by {
        lemma_shown_is_listed(dir, entries, s, e);
    }
}

/// The browser never leaves the root: a directory that may be listed lies under the
/// root, and so do the entries that the list leads to and the parent that it offers.
pub proof fn law_browsing_stays_under_the_root(
    root: Seq<u8>,
    canonical: Option<Seq<u8>>,
    dir: Seq<u8>,
)
    requires
        confined(root, canonical) == Some(dir),
    ensures
        within(root, dir),
        forall|e: EntryView|
            is_name(e.name) ==> within(root, #[trigger] joined(dir, e.name)),
        offered_parent(root, dir) matches Some(text) ==> exists|p: Seq<u8>| #[trigger]
            within(root, p) && text == lossy(p),
{
    assert forall|e: EntryView| is_name(e.name) implies within(
        root,
        #[trigger] joined(dir, e.name),
    ) by {
        law_entries_stay_within(root, dir, e.name);
    }
    if components(dir) != components(root) && has_parent(dir) {
        law_parent_stays_within(root, dir);
    }
}

/// The path that the list gives for an entry names that entry: who asks for it is led to
/// the name in the directory.
pub proof fn law_listed_paths_lead_back(dir: Seq<u8>, e: EntryView)
    requires
        valid_utf8(joined(dir, e.name)),
    ensures
        encode_utf8(listed(dir, e).path) == joined(dir, e.name),
{
    decode_utf8_encode_utf8(joined(dir, e.name));
}

/// Going into a listed directory succeeds and leads back: what the list gives as its path
/// may be listed, and that list names this path as its own and the directory that it came
/// from as its parent.
pub proof fn law_into_a_directory_and_back(
    root: Seq<u8>,
    dir: Seq<u8>,
    entries: Seq<EntryView>,
    e: EntryView,
    inside: Seq<ListedView>,
)
    requires
        is_canonical(dir),
        within(root, dir),
        expressible(dir, entries),
        visible(entries).contains(e),
        is_name(e.name),
    ensures
        encode_utf8(listed(dir, e).path) == joined(dir, e.name),
        is_canonical(joined(dir, e.name)),
        confined(root, Some(joined(dir, e.name))) == Some(joined(dir, e.name)),
        offered_parent(root, joined(dir, e.name)) == Some(decode_utf8(dir)),
        ({
            let inner = joined(dir, e.name);
            let reply = listing_reply(
                decode_utf8(inner),
                offered_parent(root, inner),
                inside,
            );
            &&& reply.status == 200
            &&& reply.body.field_text("path"@) == Some(listed(dir, e).path)
            &&& reply.body.field_text("parent"@) == Some(decode_utf8(dir))
        }),
{
    let inner = joined(dir, e.name);
    let i = choose|i: int| 0 <= i < visible(entries).len() && visible(entries)[i] == e;
    assert(valid_utf8(joined(dir, visible(entries)[i].name)));
    law_listed_paths_lead_back(dir, e);
    law_parent_of_an_entry(dir, e.name);
    law_entries_are_children(dir, e.name);
    law_entries_stay_within(root, dir, e.name);
    assert(components(inner) != components(root)) by {
        assert(components(inner).len() == components(dir).len() + 1);
        assert(components(root).len() <= components(dir).len());
    }
    reveal_strlit("path");
    reveal_strlit("parent");
    reveal_strlit("entries");
    assert("path"@.len() == 4 && "parent"@.len() == 6 && "entries"@.len() == 7);
}

/// The endings of the media files that mpv is to be shown, in lower case.
pub open spec fn plays(s: Seq<char>) -> bool {
    ||| s == "mkv"@
    ||| s == "mp4"@
    ||| s == "webm"@
    ||| s == "avi"@
    ||| s == "mov"@
    ||| s == "ts"@
    ||| s == "m2ts"@
    ||| s == "wmv"@
    ||| s == "flv"@
    ||| s == "mp3"@
    ||| s == "flac"@
    ||| s == "opus"@
    ||| s == "m4a"@
    ||| s == "ogg"@
    ||| s == "wav"@
    ||| s == "aac"@
    ||| s == "wma"@
}

/// A list of endings holds these and no others.
proof fn lemma_endings(s: Seq<char>)
    ensures
        media_endings().contains(s) == plays(s),
{
    assert(media_endings()[0] == "mkv"@);
    assert(media_endings()[1] == "mp4"@);
    assert(media_endings()[2] == "webm"@);
    assert(media_endings()[3] == "avi"@);
    assert(media_endings()[4] == "mov"@);
    assert(media_endings()[5] == "ts"@);
    assert(media_endings()[6] == "m2ts"@);
    assert(media_endings()[7] == "wmv"@);
    assert(media_endings()[8] == "flv"@);
    assert(media_endings()[9] == "mp3"@);
    assert(media_endings()[10] == "flac"@);
    assert(media_endings()[11] == "opus"@);
    assert(media_endings()[12] == "m4a"@);
    assert(media_endings()[13] == "ogg"@);
    assert(media_endings()[14] == "wav"@);
    assert(media_endings()[15] == "aac"@);
    assert(media_endings()[16] == "wma"@);
    if media_endings().contains(s) {
        let i = choose|i: int| 0 <= i < media_endings().len() && media_endings()[i] == s;
        assert(0 <= i < 17);
    }
}

/// A file is shown exactly if what follows its last dot, with ASCII letters in lower case, is
/// the ending of a media file, however many dots come before. A name without a dot is its
/// own ending.
pub proof fn law_the_last_dot_decides(stem: Seq<char>, end: Seq<char>, small: Seq<char>)
    requires
        !end.contains('.'),
        small.len() == end.len(),
        forall|i: int|
            0 <= i < end.len() ==> #[trigger] small[i] == if 'A' <= end[i] <= 'Z' {
                (end[i] as u32 + 32) as char
            } else {
                end[i]
            },
    ensures
        stem.len() > 0 && stem[0] != '.' ==> (shown(stem + seq!['.'] + end, false) <==> plays(
            small,
        )),
        shown(end, false) <==> plays(small),
{
    let name = stem + seq!['.'] + end;
    assert(name == stem.push('.') + end);
    law_fields_are_cut_at_the_character(stem, end, '.');
    assert(ending(name) == end);
    assert(ending(end) == end);
    assert(lower(end) == small);
    lemma_endings(small);
    if end.len() > 0 {
        assert(end.contains(end[0]));
    }
    if stem.len() > 0 {
        assert(name[0] == stem[0]);
    }
}

/// What begins with a dot is hidden, be it a file or a directory. Every other directory is
/// shown.
pub proof fn law_dots_hide(rest: Seq<char>, name: Seq<char>, is_dir: bool)
    ensures
        !shown(seq!['.'] + rest, is_dir),
        name.len() == 0 || name[0] != '.' ==> shown(name, true),
{
    assert((seq!['.'] + rest)[0] == '.');
}

/// Texts are ordered by their first difference: what they have in common makes none, then
/// the smaller character comes first, and a text comes before its extensions.
pub proof fn law_the_first_difference_decides(common: Seq<char>, a: Seq<char>, b: Seq<char>)
    ensures
        text_less(common + a, common + b) == text_less(a, b),
        a.len() > 0 && b.len() > 0 && a[0] != b[0] ==> text_less(a, b) == (a[0] < b[0]),
        a.len() == 0 ==> text_less(a, b) == (b.len() > 0),
        b.len() == 0 ==> !text_less(a, b),
    decreases common.len(),
{
    if common.len() == 0 {
        assert(common + a == a);
        assert(common + b == b);
    } else {
        let rest = common.skip(1);
        law_the_first_difference_decides(rest, a, b);
        assert((common + a).skip(1) == rest + a);
        assert((common + b).skip(1) == rest + b);
        assert((common + a)[0] == (common + b)[0]);
    }
}

/// In a list no file stands before a directory, and neither among the directories nor among
/// the files does a name stand before one that is smaller. Entries that are alike in both
/// keep the order in which they came.
pub proof fn law_directories_come_first(s: Seq<ListedView>, input: Seq<ListedView>, k: ListedView)
    requires
        sorting_of(s, input),
    ensures
        forall|i: int, j: int|
            0 <= i < j < s.len() ==> {
                &&& (#[trigger] s[j]).is_dir ==> (#[trigger] s[i]).is_dir
                &&& s[i].is_dir == s[j].is_dir ==> !text_less(s[j].name, s[i].name)
            },
        s.filter(|e: ListedView| e.is_dir == k.is_dir && e.name == k.name) == input.filter(
            |e: ListedView| e.is_dir == k.is_dir && e.name == k.name,
        ),
{
    assert forall|i: int, j: int| 0 <= i < j < s.len() implies {
        &&& (#[trigger] s[j]).is_dir ==> (#[trigger] s[i]).is_dir
        &&& s[i].is_dir == s[j].is_dir ==> !text_less(s[j].name, s[i].name)
    } by {
        assert(!before(s[j], s[i]));
    }
    lemma_alike(s, k);
    lemma_alike(input, k);
    assert(at_place(s, k) == at_place(input, k));
}

/// The entries at a place are those with its name that are as much a directory.
proof fn lemma_alike(s: Seq<ListedView>, k: ListedView)
    ensures
        at_place(s, k) == s.filter(|e: ListedView| e.is_dir == k.is_dir && e.name == k.name),
    decreases s.len(),
{
    reveal(Seq::filter);
    if s.len() > 0 {
        lemma_alike(s.drop_last(), k);
    }
}

/// Whatever is in order in this sense, with the entries that came, is the list: the law above
/// says all that there is to the order.
pub proof fn law_nothing_else_is_the_order(s: Seq<ListedView>, input: Seq<ListedView>)
    requires
        forall|i: int, j: int|
            0 <= i < j < s.len() ==> {
                &&& (#[trigger] s[j]).is_dir ==> (#[trigger] s[i]).is_dir
                &&& s[i].is_dir == s[j].is_dir ==> !text_less(s[j].name, s[i].name)
            },
        forall|k: ListedView|
            #![trigger at_place(s, k)]
            s.filter(|e: ListedView| e.is_dir == k.is_dir && e.name == k.name) == input.filter(
                |e: ListedView| e.is_dir == k.is_dir && e.name == k.name,
            ),
    ensures
        sorting_of(s, input),
{
    assert forall|k: ListedView| #[trigger] at_place(s, k) == at_place(input, k) by {
        lemma_alike(s, k);
        lemma_alike(input, k);
    }
}

/// A listing is answered with 200 and an object with three members: the path, the parent or
/// `null`, and the entries, one object with name, kind and path for each and in order.
pub proof fn law_listings_say_what_is_there(
    path: Seq<char>,
    parent: Option<Seq<char>>,
    entries: Seq<ListedView>,
)
    ensures
        ({
            let reply = listing_reply(path, parent, entries);
            &&& reply.status == 200
            &&& reply.body matches JsonView::Object(m)
            &&& m.dom() == set!["path"@, "parent"@, "entries"@]
            &&& m["path"@] == JsonView::Str(path)
            &&& m["parent"@] == match parent {
                Some(p) => JsonView::Str(p),
                None => JsonView::Null,
            }
            &&& m["entries"@] matches JsonView::Array(items)
            &&& items.len() == entries.len()
            &&& forall|i: int| #![trigger items[i]]
                0 <= i < items.len() ==> {
                    &&& items[i] matches JsonView::Object(e)
                    &&& e.dom() == set!["name"@, "is_dir"@, "path"@]
                    &&& e["name"@] == JsonView::Str(entries[i].name)
                    &&& e["is_dir"@] == JsonView::Bool(entries[i].is_dir)
                    &&& e["path"@] == JsonView::Str(entries[i].path)
                }
        }),
{
    reveal_strlit("path");
    reveal_strlit("parent");
    reveal_strlit("entries");
    reveal_strlit("name");
    reveal_strlit("is_dir");
    assert("path"@.len() == 4 && "parent"@.len() == 6 && "entries"@.len() == 7);
    assert("name"@.len() == 4 && "is_dir"@.len() == 6);
    assert("path"@[0] == 'p' && "name"@[0] == 'n');
    let body = listing_reply(path, parent, entries).body;
    assert(body->Object_0.dom() == set!["path"@, "parent"@, "entries"@]);
    let items = body->Object_0["entries"@]->Array_0;
    assert forall|i: int| #![trigger items[i]] 0 <= i < items.len() implies {
        &&& items[i] matches JsonView::Object(e)
        &&& e.dom() == set!["name"@, "is_dir"@, "path"@]
        &&& e["name"@] == JsonView::Str(entries[i].name)
        &&& e["is_dir"@] == JsonView::Bool(entries[i].is_dir)
        &&& e["path"@] == JsonView::Str(entries[i].path)
    } by {
        assert(items[i] == entry_json(entries[i]));
        assert(entry_json(entries[i])->Object_0.dom() == set!["name"@, "is_dir"@, "path"@]);
    }
}

/// Each entry of a directory speaks for itself: one that is to be shown is listed under its
/// name, with its kind and the path that leads to it, and any other not at all.
pub proof fn law_entries_speak_for_themselves(
    dir: Seq<u8>,
    a: Seq<EntryView>,
    b: Seq<EntryView>,
    e: EntryView,
)
    ensures
        listing_of(dir, a + b) == listing_of(dir, a) + listing_of(dir, b),
        listing_of(dir, seq![e]) == if shown(lossy(e.name), e.is_dir) {
            seq![
                ListedView {
                    name: lossy(e.name),
                    is_dir: e.is_dir,
                    path: decode_utf8(joined(dir, e.name)),
                },
            ]
        } else {
            Seq::empty()
        },
{
    let keep = |e: EntryView| shown(lossy(e.name), e.is_dir);
    let none = Seq::<EntryView>::empty();
    lemma_filter_concat(a, b, keep);
    assert(listing_of(dir, a + b) == listing_of(dir, a) + listing_of(dir, b));
    lemma_filter_push(none, e, keep);
    assert(none.push(e) == seq![e]);
    assert(none.filter(keep) == none) by {
        reveal(Seq::filter);
    }
    if keep(e) {
        assert(listing_of(dir, seq![e]) == seq![listed(dir, e)]);
    } else {
        assert(listing_of(dir, seq![e]) == Seq::<ListedView>::empty());
    }
}

/// There is an answer exactly if the path of the directory and that of every entry that is
/// to be shown are UTF-8.
pub proof fn law_only_text_is_answered(dir: Seq<u8>, entries: Seq<EntryView>)
    ensures
        expressible(dir, entries) <==> valid_utf8(dir) && forall|e: EntryView| #[trigger]
            entries.contains(e) && shown(lossy(e.name), e.is_dir) ==> valid_utf8(
                joined(dir, e.name),
            ),
{
    if expressible(dir, entries) {
        assert forall|e: EntryView| #[trigger] entries.contains(e) && shown(
            lossy(e.name),
            e.is_dir,
        ) implies valid_utf8(joined(dir, e.name)) by {
            lemma_visible(entries, e);
            let i = choose|i: int| 0 <= i < visible(entries).len() && visible(entries)[i] == e;
            assert(valid_utf8(joined(dir, visible(entries)[i].name)));
        }
    }
    if valid_utf8(dir) && forall|e: EntryView| #[trigger]
        entries.contains(e) && shown(lossy(e.name), e.is_dir) ==> valid_utf8(joined(dir, e.name)) {
        assert forall|i: int| 0 <= i < visible(entries).len() implies valid_utf8(
            joined(dir, (#[trigger] visible(entries)[i]).name),
        ) by {
            let e = visible(entries)[i];
            assert(visible(entries).contains(e));
            lemma_visible(entries, e);
            assert(entries.contains(e));
        }
    }
}

/// The parent is offered everywhere but at the root itself, as text.
pub proof fn law_the_parent_is_offered_below_the_root(root: Seq<u8>, dir: Seq<u8>)
    ensures
        components(dir) == components(root) ==> offered_parent(root, dir) is None,
        components(dir) != components(root) ==> offered_parent(root, dir) == match parent_path(
            dir,
        ) {
            Some(p) => Some(lossy(p)),
            None => None,
        },
{
}

/// Entries stand for what they hold, one for one.
pub proof fn law_entries_stand_for_themselves(
    listed: Listed,
    entry: Entry,
    v: Seq<Listed>,
    w: Seq<Entry>,
)
    ensures
        listed@.name == listed.name@,
        listed@.is_dir == listed.is_dir,
        listed@.path == listed.path@,
        entry@.name == entry.name@,
        entry@.is_dir == entry.is_dir,
        listed_views(v).len() == v.len(),
        forall|i: int| 0 <= i < v.len() ==> #[trigger] listed_views(v)[i] == v[i]@,
        entry_views(w).len() == w.len(),
        forall|i: int| 0 <= i < w.len() ==> #[trigger] entry_views(w)[i] == w[i]@,
{
}

} // verus!
