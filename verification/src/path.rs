//! Paths as bytes: their components, what lies under what, and parents.

use vstd::prelude::*;
use vstd::slice::slice_subrange;

use crate::text::{lemma_filter_push, lemma_split_nonempty, same_bytes, split, views};

verus! {

/// The byte between the components of a path.
pub const SLASH: u8 = 47;

/// The byte that stands for the current directory.
pub const DOT: u8 = 46;

/// What stands between the slashes of a path.
pub open spec fn pieces(path: Seq<u8>) -> Seq<Seq<u8>> {
    split(path, |b: u8| b == SLASH)
}

/// Whether a piece of a path is a component: it is not empty, and it does not stand for
/// the directory that it is in.
pub open spec fn counts(piece: Seq<u8>) -> bool {
    piece.len() > 0 && piece != seq![DOT]
}

/// How a path begins: at the root, in the current directory, or neither. Only a path
/// that begins with a piece `.` says that it is in the current directory.
pub open spec fn anchor(path: Seq<u8>) -> Seq<Seq<u8>> {
    if path.len() > 0 && path[0] == SLASH {
        seq![seq![SLASH]]
    } else if pieces(path)[0] == seq![DOT] {
        seq![seq![DOT]]
    } else {
        Seq::empty()
    }
}

/// The components of a path. Repeated slashes, slashes at the end and pieces `.` after
/// the first make no difference. `..` is a component like any other.
pub open spec fn components(path: Seq<u8>) -> Seq<Seq<u8>> {
    anchor(path) + pieces(path).filter(|p: Seq<u8>| counts(p))
}

/// Whether a path is the root or lies below it.
pub open spec fn within(root: Seq<u8>, path: Seq<u8>) -> bool {
    components(root).is_prefix_of(components(path))
}

/// Whether a path has a parent: it has a component that is not the root.
pub open spec fn has_parent(path: Seq<u8>) -> bool {
    components(path).len() > 0 && !(components(path).len() == 1 && path[0] == SLASH)
}

/// Whether `p` is the parent of `path`: the shortest beginning of it with all its
/// components but the last.
pub open spec fn is_parent(path: Seq<u8>, p: Seq<u8>) -> bool {
    &&& has_parent(path)
    &&& p.is_prefix_of(path)
    &&& components(p) == components(path).drop_last()
    &&& forall|k: int|
        0 <= k < p.len() ==> components(#[trigger] path.take(k)) != components(path).drop_last()
}

/// The parent of a path, if it has one.
pub open spec fn parent_path(path: Seq<u8>) -> Option<Seq<u8>> {
    if has_parent(path) {
        Some(choose|p: Seq<u8>| is_parent(path, p))
    } else {
        None
    }
}

/// The path of a name in a directory. A name that begins with a slash is a path of its
/// own.
pub open spec fn joined(dir: Seq<u8>, name: Seq<u8>) -> Seq<u8> {
    if name.len() > 0 && name[0] == SLASH {
        name
    } else if dir.len() == 0 || dir.last() == SLASH {
        dir + name
    } else {
        dir.push(SLASH) + name
    }
}

/// A path if it lies under the root.
pub open spec fn confined(root: Seq<u8>, canonical: Option<Seq<u8>>) -> Option<Seq<u8>> {
    match canonical {
        Some(path) => if within(root, path) {
            Some(path)
        } else {
            None
        },
        None => None,
    }
}

/// The bytes of a path that may be missing.
pub open spec fn opt_path(path: Option<Vec<u8>>) -> Option<Seq<u8>> {
    match path {
        Some(p) => Some(p@),
        None => None,
    }
}

/// What stands between the slashes of a path.
fn pieces_of(path: &[u8]) -> (r: Vec<Vec<u8>>)
    ensures
        views(r@) == pieces(path@),
{
    let mut out: Vec<Vec<u8>> = Vec::new();
    let mut cur: Vec<u8> = Vec::new();
    let mut i: usize = 0;
    assert(views(out@).push(cur@) == seq![Seq::<u8>::empty()]);
    while i < path.len()
        invariant
            i <= path@.len(),
            pieces(path@.take(i as int)) == views(out@).push(cur@),
        decreases path@.len() - i,
    {
        let ghost before = views(out@).push(cur@);
        assert(path@.take(i + 1).drop_last() == path@.take(i as int));
        assert(before.drop_last() == views(out@));
        if path[i] == SLASH {
            out.push(cur);
            cur = Vec::new();
            assert(views(out@) == before);
        } else {
            cur.push(path[i]);
            assert(views(out@).push(cur@) == before.drop_last().push(
                before.last().push(path@[i as int]),
            ));
        }
        i += 1;
    }
    let ghost whole = views(out@).push(cur@);
    out.push(cur);
    assert(views(out@) == whole);
    assert(path@.take(path@.len() as int) == path@);
    out
}

/// Whether a piece of a path is the current directory.
fn is_dot(piece: &Vec<u8>) -> (r: bool)
    ensures
        r == (piece@ == seq![DOT]),
{
    if piece.len() == 1 && piece[0] == DOT {
        assert(piece@ == seq![DOT]);
        return true;
    }
    false
}

/// One byte as a list.
fn single(b: u8) -> (r: Vec<u8>)
    ensures
        r@ == seq![b],
{
    let mut out: Vec<u8> = Vec::new();
    out.push(b);
    assert(out@ == seq![b]);
    out
}

/// The components of a path.
pub fn components_of(path: &[u8]) -> (r: Vec<Vec<u8>>)
    ensures
        views(r@) == components(path@),
{
    let ghost keep = |p: Seq<u8>| counts(p);
    let parts: Vec<Vec<u8>> = pieces_of(path);
    let ghost ps = pieces(path@);
    proof {
        lemma_split_nonempty(path@, |b: u8| b == SLASH);
        assert(ps.len() == parts@.len());
        assert(ps[0] == parts@[0]@);
    }
    let mut out: Vec<Vec<u8>> = Vec::new();
    if path.len() > 0 && path[0] == SLASH {
        out.push(single(SLASH));
    } else if is_dot(&parts[0]) {
        out.push(single(DOT));
    }
    assert(views(out@) == anchor(path@));
    let mut i: usize = 0;
    proof {
        assert(ps.take(0).filter(keep) == Seq::<Seq<u8>>::empty()) by {
            reveal(Seq::filter);
        }
        assert(views(out@) == anchor(path@) + ps.take(0).filter(keep));
    }
    while i < parts.len()
        invariant
            i <= parts@.len(),
            views(parts@) == ps,
            keep == (|p: Seq<u8>| counts(p)),
            views(out@) == anchor(path@) + ps.take(i as int).filter(keep),
        decreases parts@.len() - i,
    {
        let ghost out0 = out@;
        proof {
            assert(ps[i as int] == parts@[i as int]@);
            lemma_filter_push(ps.take(i as int), ps[i as int], keep);
            assert(ps.take(i + 1) == ps.take(i as int).push(ps[i as int]));
        }
        if parts[i].len() > 0 && !is_dot(&parts[i]) {
            let part: Vec<u8> = copy_bytes(parts[i].as_slice());
            out.push(part);
            assert(views(out@) == views(out0).push(part@));
        }
        i += 1;
    }
    assert(ps.take(ps.len() as int) == ps);
    out
}

/// A copy of some bytes.
pub(crate) fn copy_bytes(bytes: &[u8]) -> (r: Vec<u8>)
    ensures
        r@ == bytes@,
{
    let mut out: Vec<u8> = Vec::new();
    let mut i: usize = 0;
    while i < bytes.len()
        invariant
            i <= bytes@.len(),
            out@ == bytes@.take(i as int),
        decreases bytes@.len() - i,
    {
        out.push(bytes[i]);
        i += 1;
        assert(bytes@.take(i as int) == bytes@.take(i - 1).push(bytes@[i - 1]));
    }
    assert(bytes@.take(bytes@.len() as int) == bytes@);
    out
}

/// Whether the first `n` items of `b` are the first `n` items of `a`.
fn same_start(a: &Vec<Vec<u8>>, b: &Vec<Vec<u8>>, n: usize) -> (r: bool)
    requires
        n <= a@.len(),
        n <= b@.len(),
    ensures
        r == (views(a@).take(n as int) == views(b@).take(n as int)),
{
    let mut i: usize = 0;
    while i < n
        invariant
            i <= n <= a@.len(),
            n <= b@.len(),
            forall|j: int| 0 <= j < i ==> (#[trigger] a@[j])@ == b@[j]@,
        decreases n - i,
    {
        if !same_bytes(a[i].as_slice(), b[i].as_slice()) {
            assert(views(a@).take(n as int)[i as int] != views(b@).take(n as int)[i as int]);
            return false;
        }
        i += 1;
    }
    assert(views(a@).take(n as int) == views(b@).take(n as int));
    true
}

/// Whether a path is the root or lies below it.
pub fn is_within(root: &[u8], path: &[u8]) -> (r: bool)
    ensures
        r == within(root@, path@),
{
    let a: Vec<Vec<u8>> = components_of(root);
    let b: Vec<Vec<u8>> = components_of(path);
    assert(components(root@).len() == a@.len());
    assert(components(path@).len() == b@.len());
    if a.len() > b.len() {
        return false;
    }
    assert(components(root@).take(a@.len() as int) == components(root@));
    same_start(&a, &b, a.len())
}

/// Whether two paths have the same components.
pub(crate) fn same_path(a: &[u8], b: &[u8]) -> (r: bool)
    ensures
        r == (components(a@) == components(b@)),
{
    let x: Vec<Vec<u8>> = components_of(a);
    let y: Vec<Vec<u8>> = components_of(b);
    assert(components(a@).len() == x@.len());
    assert(components(b@).len() == y@.len());
    if x.len() != y.len() {
        return false;
    }
    assert(components(a@).take(x@.len() as int) == components(a@));
    assert(components(b@).take(x@.len() as int) == components(b@));
    same_start(&x, &y, x.len())
}

/// Keeps a path only if it lies under the root. `canonical` is the absolute form of the
/// requested path without links, or nothing if there is no such file.
pub fn check_path(root: &[u8], canonical: Option<Vec<u8>>) -> (r: Option<Vec<u8>>)
    ensures
        opt_path(r) == confined(root@, opt_path(canonical)),
{
    match canonical {
        Some(path) => if is_within(root, path.as_slice()) {
            Some(path)
        } else {
            None
        },
        None => None,
    }
}

/// The path of a name in a directory.
pub fn join(dir: &[u8], name: &[u8]) -> (r: Vec<u8>)
    ensures
        r@ == joined(dir@, name@),
{
    if name.len() > 0 && name[0] == SLASH {
        return copy_bytes(name);
    }
    let mut out: Vec<u8> = copy_bytes(dir);
    if dir.len() > 0 && dir[dir.len() - 1] != SLASH {
        out.push(SLASH);
    }
    let mut rest: Vec<u8> = copy_bytes(name);
    out.append(&mut rest);
    out
}

/// The parent of a path.
pub fn parent(path: &[u8]) -> (r: Option<Vec<u8>>)
    ensures
        opt_path(r) == parent_path(path@),
        match r {
            Some(p) => is_parent(path@, p@),
            None => !has_parent(path@),
        },
{
    let all: Vec<Vec<u8>> = components_of(path);
    assert(components(path@).len() == all@.len());
    proof {
        lemma_empty_path();
        if path@.len() == 0 {
            assert(path@ == Seq::<u8>::empty());
        }
    }
    if all.len() == 0 || (all.len() == 1 && path[0] == SLASH) {
        return None;
    }
    let len: usize = path.len();
    let n: usize = all.len() - 1;
    let ghost target = components(path@).drop_last();
    let ghost there = lemma_parent_exists(path@);
    let mut k: usize = 0;
    loop
        invariant
            len == path@.len(),
            0 <= there <= len,
            k <= there,
            n == all@.len() - 1,
            all@.len() >= 1,
            views(all@) == components(path@),
            has_parent(path@),
            target == components(path@).drop_last(),
            components(path@.take(there)) == target,
            forall|j: int| 0 <= j < k ==> components(#[trigger] path@.take(j)) != target,
        decreases there - k,
    {
        let part: &[u8] = slice_subrange(path, 0, k);
        assert(part@ == path@.take(k as int));
        let some: Vec<Vec<u8>> = components_of(part);
        assert(components(part@).len() == some@.len());
        if some.len() == n && same_start(&some, &all, n) {
            assert(components(part@).take(n as int) == components(part@));
            assert(components(path@).take(n as int) == target);
            let p: Vec<u8> = copy_bytes(part);
            assert forall|j: int| 0 <= j < p@.len() implies components(
                #[trigger] path@.take(j),
            ) != target by {
                assert(j < k);
            }
            proof {
                assert(is_parent(path@, p@));
                lemma_one_parent(path@, p@, parent_path(path@)->0);
            }
            return Some(p);
        }
        proof {
            if components(part@) == target {
                assert(views(some@).take(n as int) == target);
                assert(views(all@).take(n as int) == target);
            }
        }
        k += 1;
    }
}

/// A path has only one parent.
proof fn lemma_one_parent(path: Seq<u8>, p: Seq<u8>, q: Seq<u8>)
    requires
        is_parent(path, p),
        is_parent(path, q),
    ensures
        p == q,
{
    assert(p == path.take(p.len() as int));
    assert(q == path.take(q.len() as int));
}

/// The components up to the last piece of a path.
spec fn settled(path: Seq<u8>) -> Seq<Seq<u8>> {
    anchor(path) + pieces(path).drop_last().filter(|p: Seq<u8>| counts(p))
}

/// The components of a path are the settled ones and the last piece, if that counts.
proof fn lemma_last_piece(path: Seq<u8>)
    ensures
        pieces(path).len() >= 1,
        components(path) == if counts(pieces(path).last()) {
            settled(path).push(pieces(path).last())
        } else {
            settled(path)
        },
{
    let keep = |p: Seq<u8>| counts(p);
    let ps = pieces(path);
    lemma_split_nonempty(path, |b: u8| b == SLASH);
    lemma_filter_push(ps.drop_last(), ps.last(), keep);
    assert(ps.drop_last().push(ps.last()) == ps);
    assert(components(path) == if counts(ps.last()) {
        settled(path).push(ps.last())
    } else {
        settled(path)
    });
}

/// The empty path has no components.
proof fn lemma_empty_path()
    ensures
        components(Seq::<u8>::empty()) == Seq::<Seq<u8>>::empty(),
{
    let e = Seq::<u8>::empty();
    lemma_last_piece(e);
    assert(pieces(e) == seq![Seq::<u8>::empty()]);
    assert(pieces(e).drop_last() == Seq::<Seq<u8>>::empty());
    assert(pieces(e).drop_last().filter(|p: Seq<u8>| counts(p)) == Seq::<Seq<u8>>::empty()) by {
        reveal(Seq::filter);
    }
    assert(pieces(e)[0].len() == 0);
    assert(anchor(e) == Seq::<Seq<u8>>::empty());
}

/// A slash after a path that is not empty changes no component, and settles them all.
proof fn lemma_trailing_slash(path: Seq<u8>)
    requires
        path.len() > 0,
    ensures
        components(path.push(SLASH)) == components(path),
        settled(path.push(SLASH)) == components(path),
        pieces(path.push(SLASH)).len() >= 2,
{
    let s = path.push(SLASH);
    assert(s.drop_last() == path);
    lemma_last_piece(path);
    lemma_last_piece(s);
    assert(pieces(s) == pieces(path).push(Seq::empty()));
    assert(pieces(s).drop_last() == pieces(path));
    assert(s[0] == path[0]);
    assert(pieces(s)[0] == pieces(path)[0]);
    assert(anchor(s) == anchor(path));
}

/// Once a path has a slash, another byte that is not one changes only the last piece.
proof fn lemma_longer_piece(path: Seq<u8>, b: u8)
    requires
        pieces(path).len() >= 2,
        b != SLASH,
    ensures
        settled(path.push(b)) == settled(path),
        pieces(path.push(b)).last() == pieces(path).last().push(b),
        pieces(path.push(b)).len() == pieces(path).len(),
{
    let s = path.push(b);
    assert(s.drop_last() == path);
    assert(path.len() > 0) by {
        if path.len() == 0 {
            assert(pieces(path).len() == 1);
        }
    }
    assert(pieces(s).drop_last() == pieces(path).drop_last());
    assert(s[0] == path[0]);
    assert(pieces(s)[0] == pieces(path)[0]);
    assert(anchor(s) == anchor(path));
}

/// A path without a slash is its only piece.
proof fn lemma_one_piece(path: Seq<u8>)
    ensures
        pieces(path).len() == 1 ==> pieces(path)[0] == path,
        path.len() > 0 && path[0] == SLASH ==> pieces(path).len() >= 2,
    decreases path.len(),
{
    if path.len() > 0 {
        let t = path.drop_last();
        lemma_one_piece(t);
        lemma_split_nonempty(t, |b: u8| b == SLASH);
        assert(t.push(path.last()) == path);
    } else {
        assert(path == Seq::<u8>::empty());
    }
}

/// A path with a component besides the root has a beginning with all but the last.
proof fn lemma_parent_exists(path: Seq<u8>) -> (k: int)
    requires
        has_parent(path),
    ensures
        0 <= k <= path.len(),
        components(path.take(k)) == components(path).drop_last(),
    decreases path.len(),
{
    lemma_empty_path();
    if path.len() == 0 {
        assert(path == Seq::<u8>::empty());
        0
    } else {
        let t = path.drop_last();
        let b = path.last();
        assert(t.push(b) == path);
        lemma_last_piece(path);
        lemma_last_piece(t);
        lemma_one_piece(path);
        lemma_one_piece(t);
        if b == SLASH {
            if t.len() == 0 {
                assert(path == seq![SLASH]);
                lemma_root();
                assert(components(path).len() == 1);
                0
            } else {
                lemma_trailing_slash(t);
                let k = lemma_parent_exists(t);
                assert(t.take(k) == path.take(k));
                k
            }
        } else if pieces(t).len() == 1 {
            assert(path.take(0) == Seq::<u8>::empty());
            assert(pieces(path).len() == 1);
            assert(pieces(path)[0] == path);
            assert(pieces(path).drop_last() == Seq::<Seq<u8>>::empty());
            assert(pieces(path).drop_last().filter(|p: Seq<u8>| counts(p)) == Seq::<
                Seq<u8>,
            >::empty()) by {
                reveal(Seq::filter);
            }
            assert(components(path).len() == 1);
            assert(components(path).drop_last() == Seq::<Seq<u8>>::empty());
            0
        } else {
            lemma_longer_piece(t, b);
            let last = pieces(path).last();
            assert(last.len() > 0);
            if counts(last) && !counts(pieces(t).last()) {
                assert(components(path).drop_last() == settled(t));
                assert(path.take(t.len() as int) == t);
                t.len() as int
            } else {
                if counts(last) {
                    assert(components(path).drop_last() == settled(t));
                    assert(components(t).drop_last() == settled(t));
                    if components(t).len() == 1 && t[0] == SLASH {
                        assert(anchor(t).len() == 1);
                        assert(settled(t).len() >= 1);
                    }
                } else {
                    assert(last == seq![DOT]);
                    assert(pieces(t).last().len() == 0);
                }
                assert(t[0] == path[0]);
                let k = lemma_parent_exists(t);
                assert(t.take(k) == path.take(k));
                k
            }
        }
    }
}

/// If a beginning of a path has all components but the last, the shortest such
/// beginning is the parent.
proof fn lemma_shortest(path: Seq<u8>, k: int)
    requires
        has_parent(path),
        0 <= k <= path.len(),
        components(path.take(k)) == components(path).drop_last(),
    ensures
        exists|p: Seq<u8>| is_parent(path, p),
    decreases k,
{
    if exists|j: int|
        0 <= j < k && components(#[trigger] path.take(j)) == components(path).drop_last() {
        let j = choose|j: int|
            0 <= j < k && components(#[trigger] path.take(j)) == components(path).drop_last();
        lemma_shortest(path, j);
    } else {
        assert(is_parent(path, path.take(k)));
    }
}

/// The parent of a directory below the root lies under the root.
pub proof fn law_parent_stays_within(root: Seq<u8>, dir: Seq<u8>)
    requires
        within(root, dir),
        components(dir) != components(root),
        has_parent(dir),
    ensures
        parent_path(dir) matches Some(p) && is_parent(dir, p) && within(root, p),
{
    let k = lemma_parent_exists(dir);
    lemma_shortest(dir, k);
    let p = parent_path(dir)->0;
    let a = components(root);
    let b = components(dir);
    assert(a.len() < b.len()) by {
        if a.len() == b.len() {
            assert(a == b);
        }
    }
    assert(a == components(p).subrange(0, a.len() as int));
}

/// What a directory can call an entry: a nonempty name without a slash that stands
/// neither for the directory itself nor for its parent.
pub open spec fn is_name(name: Seq<u8>) -> bool {
    &&& counts(name)
    &&& name != seq![DOT, DOT]
    &&& forall|i: int| 0 <= i < name.len() ==> #[trigger] name[i] != SLASH
}

/// A name behind a slash is a piece of its own.
proof fn lemma_name_piece(path: Seq<u8>, name: Seq<u8>)
    requires
        forall|i: int| 0 <= i < name.len() ==> #[trigger] name[i] != SLASH,
    ensures
        pieces(path.push(SLASH) + name) == pieces(path).push(name),
    decreases name.len(),
{
    let s = path.push(SLASH) + name;
    if name.len() == 0 {
        assert(s == path.push(SLASH));
        assert(s.drop_last() == path);
        assert(name == Seq::<u8>::empty());
    } else {
        let shorter = name.drop_last();
        assert forall|i: int| 0 <= i < shorter.len() implies #[trigger] shorter[i] != SLASH by {
            assert(shorter[i] == name[i]);
        }
        lemma_name_piece(path, shorter);
        assert(s.drop_last() == path.push(SLASH) + shorter);
        let before = pieces(path).push(shorter);
        assert(before.drop_last() == pieces(path));
        assert(shorter.push(name.last()) == name);
    }
}

/// A path without a slash has one piece.
proof fn lemma_lone_piece(name: Seq<u8>)
    requires
        forall|i: int| 0 <= i < name.len() ==> #[trigger] name[i] != SLASH,
    ensures
        pieces(name) == seq![name],
    decreases name.len(),
{
    if name.len() == 0 {
        assert(name == Seq::<u8>::empty());
    } else {
        let shorter = name.drop_last();
        assert forall|i: int| 0 <= i < shorter.len() implies #[trigger] shorter[i] != SLASH by {
            assert(shorter[i] == name[i]);
        }
        lemma_lone_piece(shorter);
        assert(shorter.push(name.last()) == name);
        assert(seq![shorter].drop_last().push(name) == seq![name]);
    }
}

/// An entry of a directory has the components of the directory and its own name.
pub proof fn law_entries_are_children(dir: Seq<u8>, name: Seq<u8>)
    requires
        is_name(name),
    ensures
        components(joined(dir, name)) == components(dir).push(name),
{
    if dir.len() == 0 {
        let none = Seq::<Seq<u8>>::empty();
        lemma_empty_path();
        assert(dir == Seq::<u8>::empty());
        lemma_lone_piece(name);
        lemma_filter_push(none, name, |p: Seq<u8>| counts(p));
        assert(none.push(name) == seq![name]);
        assert(none.filter(|p: Seq<u8>| counts(p)) == none) by {
            reveal(Seq::filter);
        }
        assert(joined(dir, name) == name);
        assert(name[0] != SLASH);
    } else {
        lemma_child(dir, name);
    }
}

/// The same for a directory that is not empty.
proof fn lemma_child(dir: Seq<u8>, name: Seq<u8>)
    requires
        dir.len() > 0,
        is_name(name),
    ensures
        components(joined(dir, name)) == components(dir).push(name),
{
    let keep = |p: Seq<u8>| counts(p);
    let path = joined(dir, name);
    let base = if dir.last() == SLASH {
        dir.drop_last()
    } else {
        dir
    };
    assert(path == base.push(SLASH) + name);
    lemma_name_piece(base, name);
    lemma_split_nonempty(base, |b: u8| b == SLASH);
    lemma_filter_push(pieces(base), name, keep);
    if dir.last() == SLASH {
        assert(base.push(SLASH) == dir);
        assert(pieces(dir) == pieces(base).push(Seq::empty()));
        lemma_filter_push(pieces(base), Seq::empty(), keep);
    }
    assert(path[0] == dir[0]);
    assert(pieces(path)[0] == pieces(base)[0]);
    assert(anchor(path) == anchor(dir));
}

/// What is in a directory under the root lies under the root.
pub proof fn law_entries_stay_within(root: Seq<u8>, dir: Seq<u8>, name: Seq<u8>)
    requires
        within(root, dir),
        is_name(name),
    ensures
        within(root, joined(dir, name)),
{
    law_entries_are_children(dir, name);
    let a = components(root);
    let b = components(dir);
    assert(a == b.push(name).subrange(0, a.len() as int)) by {
        assert(a == b.subrange(0, a.len() as int));
    }
}

/// The root has one component.
proof fn lemma_root()
    ensures
        components(seq![SLASH]) == seq![seq![SLASH]],
{
    let root = seq![SLASH];
    let e = Seq::<u8>::empty();
    let keep = |p: Seq<u8>| counts(p);
    assert(root.drop_last() == e);
    assert(pieces(e) == seq![e]);
    lemma_last_piece(root);
    assert(pieces(root).drop_last() == seq![e]);
    lemma_filter_push(Seq::<Seq<u8>>::empty(), e, keep);
    assert(Seq::<Seq<u8>>::empty().push(e) == seq![e]);
    assert(Seq::<Seq<u8>>::empty().filter(keep) == Seq::<Seq<u8>>::empty()) by {
        reveal(Seq::filter);
    }
    assert(settled(root) == seq![seq![SLASH]]);
}

/// The absolute path that leads from the root through the given names.
pub open spec fn path_of(names: Seq<Seq<u8>>) -> Seq<u8>
    decreases names.len(),
{
    if names.len() == 0 {
        seq![SLASH]
    } else {
        joined(path_of(names.drop_last()), names.last())
    }
}

/// Whether every piece is a name.
pub open spec fn all_names(names: Seq<Seq<u8>>) -> bool {
    forall|i: int| 0 <= i < names.len() ==> is_name(#[trigger] names[i])
}

/// Whether a path is written the way a resolved path is: it is absolute, and there is
/// nothing in it but names and one slash before each.
pub open spec fn is_canonical(path: Seq<u8>) -> bool {
    exists|names: Seq<Seq<u8>>| all_names(names) && #[trigger] path_of(names) == path
}

/// How many bytes some pieces take with a slash before each.
spec fn size(ps: Seq<Seq<u8>>) -> nat
    decreases ps.len(),
{
    if ps.len() == 0 {
        0
    } else {
        size(ps.drop_last()) + 1 + ps.last().len()
    }
}

/// The size of pieces with one more at the end.
proof fn lemma_size_push(ps: Seq<Seq<u8>>, p: Seq<u8>)
    ensures
        size(ps.push(p)) == size(ps) + 1 + p.len(),
{
    assert(ps.push(p).drop_last() == ps);
}

/// The pieces of a path take up the path. Those of an absolute path that count leave at
/// least the empty one before the first slash.
proof fn lemma_size_of_pieces(path: Seq<u8>)
    ensures
        size(pieces(path)) == path.len() + 1,
        path.len() > 0 && path[0] == SLASH ==> pieces(path).len() >= 2 && pieces(path)[0].len()
            == 0,
    decreases path.len(),
{
    reveal_with_fuel(size, 2);
    if path.len() == 0 {
        assert(pieces(path) == seq![Seq::<u8>::empty()]);
        assert(pieces(path).drop_last() == Seq::<Seq<u8>>::empty());
    } else {
        let t = path.drop_last();
        let before = pieces(t);
        lemma_size_of_pieces(t);
        lemma_split_nonempty(t, |b: u8| b == SLASH);
        assert(before.drop_last().push(before.last()) == before);
        lemma_size_push(before.drop_last(), before.last());
        lemma_size_push(before.drop_last(), before.last().push(path.last()));
        lemma_size_push(before, Seq::empty());
        if t.len() == 0 {
            assert(t == Seq::<u8>::empty());
            assert(before == seq![Seq::<u8>::empty()]);
        }
    }
}

/// The pieces that count take no more than all of them, and less if there is an empty one
/// at the beginning.
proof fn lemma_size_of_counted(ps: Seq<Seq<u8>>)
    ensures
        size(ps.filter(|p: Seq<u8>| counts(p))) <= size(ps),
        ps.len() > 0 && ps[0].len() == 0 ==> size(ps.filter(|p: Seq<u8>| counts(p))) + 1 <= size(
            ps,
        ),
    decreases ps.len(),
{
    let keep = |p: Seq<u8>| counts(p);
    if ps.len() == 0 {
        reveal(Seq::filter);
    } else {
        let t = ps.drop_last();
        assert(t.push(ps.last()) == ps);
        lemma_size_of_counted(t);
        lemma_filter_push(t, ps.last(), keep);
        lemma_size_push(t, ps.last());
        lemma_size_push(t.filter(keep), ps.last());
        if t.len() == 0 {
            assert(ps.last() == ps[0]);
        } else {
            assert(t[0] == ps[0]);
        }
    }
}

/// A canonical path begins with a slash, its components are the root and the names, and
/// below the root it is just as long as these need.
proof fn lemma_canonical(names: Seq<Seq<u8>>)
    requires
        all_names(names),
    ensures
        path_of(names).len() > 0,
        path_of(names)[0] == SLASH,
        components(path_of(names)) == seq![seq![SLASH]] + names,
        path_of(names).len() == if names.len() == 0 {
            1
        } else {
            size(names)
        },
        names.len() > 0 ==> path_of(names).last() != SLASH,
    decreases names.len(),
{
    if names.len() == 0 {
        lemma_root();
        assert(seq![seq![SLASH]] + names == seq![seq![SLASH]]);
    } else {
        let t = names.drop_last();
        let name = names.last();
        assert forall|i: int| 0 <= i < t.len() implies is_name(#[trigger] t[i]) by {
            assert(t[i] == names[i]);
        }
        assert(name == names[names.len() - 1]);
        lemma_canonical(t);
        law_entries_are_children(path_of(t), name);
        assert((seq![seq![SLASH]] + t).push(name) == seq![seq![SLASH]] + names);
        assert(name[0] != SLASH);
        assert(name[name.len() - 1] != SLASH);
        if t.len() == 0 {
            reveal_with_fuel(size, 2);
            assert(path_of(t) == seq![SLASH]);
        }
    }
}

/// No shorter beginning of a canonical path has the same components.
proof fn lemma_canonical_is_shortest(names: Seq<Seq<u8>>, k: int)
    requires
        all_names(names),
        0 <= k < path_of(names).len(),
    ensures
        components(path_of(names).take(k)) != components(path_of(names)),
{
    let path = path_of(names);
    let part = path.take(k);
    lemma_canonical(names);
    if k == 0 {
        lemma_empty_path();
        assert(part == Seq::<u8>::empty());
        assert(components(path).len() >= 1);
    } else if components(part) == components(path) {
        assert(part[0] == SLASH);
        let counted = pieces(part).filter(|p: Seq<u8>| counts(p));
        assert(components(part) == seq![seq![SLASH]] + counted);
        assert(counted == components(part).skip(1));
        assert(names == components(path).skip(1));
        lemma_size_of_pieces(part);
        lemma_size_of_counted(pieces(part));
    }
}

/// The parent of an entry of a directory is that directory, written the same way.
pub proof fn law_parent_of_an_entry(dir: Seq<u8>, name: Seq<u8>)
    requires
        is_canonical(dir),
        is_name(name),
    ensures
        is_canonical(joined(dir, name)),
        parent_path(joined(dir, name)) == Some(dir),
{
    let names = choose|names: Seq<Seq<u8>>| all_names(names) && #[trigger] path_of(names) == dir;
    let path = joined(dir, name);
    lemma_canonical(names);
    law_entries_are_children(dir, name);
    assert(names.push(name).drop_last() == names);
    assert(all_names(names.push(name)));
    assert(path_of(names.push(name)) == path);
    assert(components(path).drop_last() == components(dir));
    assert(path.take(dir.len() as int) == dir);
    assert forall|k: int| 0 <= k < dir.len() implies components(#[trigger] path.take(k))
        != components(path).drop_last() by {
        assert(path.take(k) == dir.take(k));
        lemma_canonical_is_shortest(names, k);
    }
    assert(is_parent(path, dir));
    lemma_one_parent(path, dir, parent_path(path)->0);
}

/// Nothing outside the root is ever handed out.
pub proof fn law_nothing_outside_the_root(root: Seq<u8>, canonical: Option<Seq<u8>>)
    ensures
        confined(root, canonical) matches Some(path) ==> within(root, path) && canonical == Some(
            path,
        ),
        canonical matches Some(path) && !within(root, path) ==> confined(root, canonical) is None,
{
}

/// The components of a path, piece by piece: an empty path has none. A path without a slash
/// is its own only component. Behind a slash, a name or `..` is one component more, while
/// nothing and `.` make no difference. A slash at the beginning is the root.
pub proof fn law_components_piece_by_piece(path: Seq<u8>, last: Seq<u8>)
    requires
        forall|i: int| 0 <= i < last.len() ==> #[trigger] last[i] != 47,
    ensures
        components(Seq::empty()) == Seq::<Seq<u8>>::empty(),
        last.len() > 0 ==> components(last) == seq![last],
        ({
            let whole = path + seq![47u8] + last;
            let before = if path.len() == 0 {
                seq![seq![47u8]]
            } else {
                components(path)
            };
            components(whole) == if last.len() == 0 || last == seq![46u8] {
                before
            } else {
                before.push(last)
            }
        }),
{
    lemma_empty_path();
    if last.len() > 0 {
        lemma_alone(last);
    }
    let whole = path + seq![47u8] + last;
    assert(whole == path.push(SLASH) + last);
    if path.len() == 0 {
        assert(path == Seq::<u8>::empty());
        lemma_behind_the_root(last);
    } else {
        lemma_behind(path, last);
    }
}

/// A path without a slash is its own only component.
proof fn lemma_alone(last: Seq<u8>)
    requires
        last.len() > 0,
        forall|i: int| 0 <= i < last.len() ==> #[trigger] last[i] != SLASH,
    ensures
        components(last) == seq![last],
{
    let keep = |p: Seq<u8>| counts(p);
    let none = Seq::<Seq<u8>>::empty();
    lemma_lone_piece(last);
    lemma_filter_push(none, last, keep);
    assert(none.push(last) == seq![last]);
    assert(none.filter(keep) == none) by {
        reveal(Seq::filter);
    }
    assert(last[0] != SLASH);
    if last == seq![DOT] {
        assert(pieces(last).filter(keep) == none);
        assert(anchor(last) == seq![last]);
        assert(seq![last] + none == seq![last]);
    } else {
        assert(pieces(last).filter(keep) == seq![last]);
        assert(anchor(last) == none);
        assert(none + seq![last] == seq![last]);
    }
}

/// What stands behind the root.
proof fn lemma_behind_the_root(last: Seq<u8>)
    requires
        forall|i: int| 0 <= i < last.len() ==> #[trigger] last[i] != SLASH,
    ensures
        components(Seq::<u8>::empty().push(SLASH) + last) == if counts(last) {
            seq![seq![SLASH]].push(last)
        } else {
            seq![seq![SLASH]]
        },
{
    let keep = |p: Seq<u8>| counts(p);
    let none = Seq::<Seq<u8>>::empty();
    let e = Seq::<u8>::empty();
    let whole = e.push(SLASH) + last;
    lemma_name_piece(e, last);
    assert(pieces(e) == seq![e]);
    assert(none.push(e) == seq![e]);
    lemma_filter_push(none, e, keep);
    lemma_filter_push(seq![e], last, keep);
    assert(none.filter(keep) == none) by {
        reveal(Seq::filter);
    }
    assert(whole[0] == SLASH);
    assert(anchor(whole) == seq![seq![SLASH]]);
    assert(seq![seq![SLASH]] + none == seq![seq![SLASH]]);
    assert(seq![seq![SLASH]] + none.push(last) == seq![seq![SLASH]].push(last));
}

/// What stands behind a slash that is not the first byte.
proof fn lemma_behind(path: Seq<u8>, last: Seq<u8>)
    requires
        path.len() > 0,
        forall|i: int| 0 <= i < last.len() ==> #[trigger] last[i] != SLASH,
    ensures
        components(path.push(SLASH) + last) == if counts(last) {
            components(path).push(last)
        } else {
            components(path)
        },
{
    let keep = |p: Seq<u8>| counts(p);
    let whole = path.push(SLASH) + last;
    lemma_name_piece(path, last);
    lemma_filter_push(pieces(path), last, keep);
    lemma_split_nonempty(path, |b: u8| b == SLASH);
    assert(whole[0] == path[0]);
    assert(pieces(whole)[0] == pieces(path)[0]);
    assert(anchor(whole) == anchor(path));
    assert(anchor(path) + pieces(path).filter(keep).push(last) == components(path).push(last));
}

/// A path lies under the root exactly if it begins with the components of the root.
pub proof fn law_within_is_a_common_beginning(root: Seq<u8>, path: Seq<u8>)
    ensures
        within(root, path) <==> {
            &&& components(root).len() <= components(path).len()
            &&& forall|i: int|
                0 <= i < components(root).len() ==> #[trigger] components(root)[i]
                    == components(path)[i]
        },
{
    if components(root).len() <= components(path).len() && (forall|i: int|
        0 <= i < components(root).len() ==> #[trigger] components(root)[i] == components(path)[i]) {
        assert(components(root) == components(path).subrange(0, components(root).len() as int));
    }
    if within(root, path) {
        assert forall|i: int| 0 <= i < components(root).len() implies #[trigger] components(root)[i]
            == components(path)[i] by {
            assert(components(path).subrange(0, components(root).len() as int)[i] == components(
                path,
            )[i]);
        }
    }
}

/// A path under the root is kept as it is, and no other.
pub proof fn law_paths_under_the_root_are_kept(root: Seq<u8>, path: Seq<u8>)
    ensures
        within(root, path) ==> confined(root, Some(path)) == Some(path),
        !within(root, path) ==> confined(root, Some(path)) is None,
        confined(root, None) is None,
{
}

/// A joined path is the directory, a slash if there is none at its end, and the name, with
/// nothing lost or added. An absolute name stands alone.
pub proof fn law_joining_keeps_both_parts(dir: Seq<u8>, name: Seq<u8>)
    ensures
        name.len() > 0 && name[0] == 47 ==> joined(dir, name) == name,
        !(name.len() > 0 && name[0] == 47) ==> {
            let whole = joined(dir, name);
            let between = if dir.len() > 0 && dir.last() != 47 {
                1int
            } else {
                0int
            };
            &&& whole.len() == dir.len() + between + name.len()
            &&& whole.take(dir.len() as int) == dir
            &&& whole.skip(dir.len() + between) == name
            &&& between == 1 ==> whole[dir.len() as int] == 47
        },
{
    if !(name.len() > 0 && name[0] == 47) {
        let whole = joined(dir, name);
        let between = if dir.len() > 0 && dir.last() != 47 {
            1int
        } else {
            0int
        };
        assert(whole.take(dir.len() as int) == dir);
        assert(whole.skip(dir.len() + between) == name);
    }
}

/// The parent is the shortest beginning of a path that has all its components but the last.
/// Only an empty path and the root have none.
pub proof fn law_the_parent_lacks_the_last_component(path: Seq<u8>)
    ensures
        components(path).len() == 0 || (components(path).len() == 1 && path[0] == 47)
            ==> parent_path(path) is None,
        components(path).len() >= 2 || (components(path).len() == 1 && path[0] != 47) ==> {
            &&& parent_path(path) matches Some(p)
            &&& p.len() <= path.len()
            &&& p == path.take(p.len() as int)
            &&& components(p) == components(path).drop_last()
            &&& forall|k: int|
                0 <= k < p.len() ==> components(#[trigger] path.take(k)) != components(
                    path,
                ).drop_last()
        },
{
    if has_parent(path) {
        let k = lemma_parent_exists(path);
        lemma_shortest(path, k);
        let p = parent_path(path)->0;
        assert(is_parent(path, p));
        assert(p == path.take(p.len() as int));
    }
}

/// A path that may be missing stands for its bytes.
pub proof fn law_missing_paths_stay_missing(path: Vec<u8>)
    ensures
        opt_path(Some(path)) == Some(path@),
        opt_path(None) is None,
{
}

} // verus!
