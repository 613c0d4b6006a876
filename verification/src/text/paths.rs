//! The order of file paths: component by component, as a file system has it.

use vstd::prelude::*;

use crate::chars::{
    chars_of, comes_before, lemma_text_chain, lemma_text_order, owned, same, text_before, texts,
};
use crate::introspect::text::{chars_view, split, split_at};

verus! {

/// The components of a path, but for what it starts with. Empty ones and
/// single dots name nothing. Each is led by a digit, which puts the way up
/// before every name.
pub open spec fn named_parts(pieces: Seq<Seq<char>>) -> Seq<Seq<char>>
    decreases pieces.len(),
{
    if pieces.len() == 0 {
        Seq::empty()
    } else {
        let head = named_parts(pieces.drop_last());
        let last = pieces.last();
        if last.len() == 0 || last == "."@ {
            head
        } else if last == ".."@ {
            head.push(seq!['2'])
        } else {
            head.push(seq!['3'] + last)
        }
    }
}

/// What a path starts with: the root, or the directory one is in; mostly
/// neither.
pub open spec fn lead_of(path: Seq<char>, first: Seq<char>) -> Seq<Seq<char>> {
    if path.len() > 0 && first.len() == 0 {
        seq![seq!['0']]
    } else if first == "."@ {
        seq![seq!['1']]
    } else {
        Seq::empty()
    }
}

/// The components of a path: two paths with the same ones are the same path,
/// however they are spelled.
pub open spec fn parts_of(path: Seq<char>) -> Seq<Seq<char>> {
    let pieces = split(path, '/');
    lead_of(path, pieces[0]) + named_parts(pieces)
}

/// Whether `a` comes before `b`, component by component.
pub open spec fn parts_before(a: Seq<Seq<char>>, b: Seq<Seq<char>>) -> bool
    decreases a.len(),
{
    if b.len() == 0 {
        false
    } else if a.len() == 0 {
        true
    } else if a[0] == b[0] {
        parts_before(a.drop_first(), b.drop_first())
    } else {
        text_before(a[0], b[0])
    }
}

/// Whether a path comes before another.
pub open spec fn path_before(a: Seq<char>, b: Seq<char>) -> bool {
    parts_before(parts_of(a), parts_of(b))
}

/// Whether a path is among some, and the first of all spellings of it.
pub open spec fn first_spelling(paths: Seq<Seq<char>>, p: Seq<char>) -> bool {
    exists|k: int|
        0 <= k < paths.len() && #[trigger] paths[k] == p && forall|m: int|
            0 <= m < k ==> parts_of(#[trigger] paths[m]) != parts_of(p)
}

/// Whether a path is among some, in one spelling or another.
pub open spec fn is_among(paths: Seq<Seq<char>>, p: Seq<char>) -> bool {
    exists|k: int| 0 <= k < paths.len() && parts_of(#[trigger] paths[k]) == parts_of(p)
}

proof fn lemma_parts_order(a: Seq<Seq<char>>, b: Seq<Seq<char>>)
    ensures
        parts_before(a, b) || parts_before(b, a) || a == b,
        !parts_before(a, a),
    decreases a.len(),
{
    if a.len() > 0 {
        lemma_parts_order(a.drop_first(), a.drop_first());
        if b.len() > 0 {
            lemma_text_order(a[0], b[0]);
            if a[0] == b[0] {
                lemma_parts_order(a.drop_first(), b.drop_first());
                if a.drop_first() == b.drop_first() {
                    assert(a =~= seq![a[0]] + a.drop_first());
                    assert(b =~= seq![b[0]] + b.drop_first());
                }
            }
        }
    } else if b.len() == 0 {
        assert(a =~= b);
    }
}

proof fn lemma_parts_chain(a: Seq<Seq<char>>, b: Seq<Seq<char>>, c: Seq<Seq<char>>)
    requires
        parts_before(a, b),
        parts_before(b, c),
    ensures
        parts_before(a, c),
    decreases a.len(),
{
    if a.len() > 0 {
        if a[0] == b[0] && b[0] == c[0] {
            lemma_parts_chain(a.drop_first(), b.drop_first(), c.drop_first());
        } else if a[0] != b[0] && b[0] != c[0] {
            lemma_text_chain(a[0], b[0], c[0]);
            lemma_text_order(a[0], c[0]);
        }
    }
}

/// Of two paths, one comes before the other, unless they are the same.
pub proof fn paths_are_ordered(a: Seq<char>, b: Seq<char>)
    ensures
        path_before(a, b) || path_before(b, a) || parts_of(a) == parts_of(b),
        !(path_before(a, b) && path_before(b, a)),
        path_before(a, b) ==> parts_of(a) != parts_of(b),
{
    lemma_parts_order(parts_of(a), parts_of(b));
    lemma_parts_order(parts_of(b), parts_of(b));
    if path_before(a, b) && path_before(b, a) {
        lemma_parts_chain(parts_of(a), parts_of(b), parts_of(a));
        lemma_parts_order(parts_of(a), parts_of(a));
    }
}

fn word(v: &[char], t: &str) -> (r: bool)
    ensures
        r == (v@ == t@),
{
    same(v, chars_of(t).as_slice())
}

fn led(digit: char, name: &[char]) -> (out: Vec<char>)
    ensures
        out@ == seq![digit] + name@,
{
    let mut out: Vec<char> = Vec::new();
    out.push(digit);
    let mut i: usize = 0;
    while i < name.len()
        invariant
            i <= name.len(),
            out@ == seq![digit] + name@.take(i as int),
        decreases name.len() - i,
    {
        out.push(name[i]);
        assert(name@.take(i + 1) =~= name@.take(i as int).push(name@[i as int]));
        i += 1;
    }
    assert(name@.take(i as int) =~= name@);
    out
}

fn split_path(path: &str) -> (out: Vec<Vec<char>>)
    ensures
        chars_view(out@) == parts_of(path@),
{
    let v = chars_of(path);
    let pieces = split_at(v.as_slice(), '/');
    let ghost all = chars_view(pieces@);
    assert(split(v@, '/').len() >= 1);
    assert(pieces@.len() == all.len());
    let none: Vec<char> = Vec::new();
    let mut out: Vec<Vec<char>> = Vec::new();
    if v.len() > 0 && pieces[0].len() == 0 {
        out.push(led('0', none.as_slice()));
        assert(out@[0]@ =~= seq!['0']);
    } else if word(pieces[0].as_slice(), ".") {
        out.push(led('1', none.as_slice()));
        assert(out@[0]@ =~= seq!['1']);
    }
    let ghost lead = lead_of(path@, all[0]);
    assert(all[0] == pieces@[0]@);
    assert(chars_view(out@) =~= lead);
    let mut i: usize = 0;
    assert(all.take(0) =~= Seq::<Seq<char>>::empty());
    assert(lead + named_parts(all.take(0)) =~= lead);
    while i < pieces.len()
        invariant
            i <= pieces.len(),
            none@.len() == 0,
            all == chars_view(pieces@),
            chars_view(out@) == lead + named_parts(all.take(i as int)),
        decreases pieces.len() - i,
    {
        let ghost before = chars_view(out@);
        let ghost head = all.take(i + 1);
        let piece = pieces[i].as_slice();
        proof {
            assert(head.drop_last() =~= all.take(i as int));
            assert(head.last() == piece@);
        }
        if piece.len() == 0 || word(piece, ".") {
        } else if word(piece, "..") {
            out.push(led('2', none.as_slice()));
            assert(out@.last()@ =~= seq!['2']);
            assert(chars_view(out@) =~= before.push(seq!['2']));
        } else {
            out.push(led('3', piece));
            assert(chars_view(out@) =~= before.push(seq!['3'] + piece@));
        }
        assert(chars_view(out@) =~= lead + named_parts(head));
        i += 1;
    }
    assert(all.take(i as int) =~= all);
    out
}

fn goes_before(a: &Vec<Vec<char>>, b: &Vec<Vec<char>>) -> (r: bool)
    ensures
        r == parts_before(chars_view(a@), chars_view(b@)),
{
    let ghost x = chars_view(a@);
    let ghost y = chars_view(b@);
    let mut i: usize = 0;
    assert(x.skip(0) =~= x);
    assert(y.skip(0) =~= y);
    while i < a.len() && i < b.len()
        invariant
            i <= a.len(),
            i <= b.len(),
            x == chars_view(a@),
            y == chars_view(b@),
            parts_before(x, y) == parts_before(x.skip(i as int), y.skip(i as int)),
        decreases a.len() - i,
    {
        assert(x[i as int] == a@[i as int]@);
        assert(y[i as int] == b@[i as int]@);
        if !same(a[i].as_slice(), b[i].as_slice()) {
            return comes_before(a[i].as_slice(), b[i].as_slice());
        }
        assert(x.skip(i as int).drop_first() =~= x.skip(i + 1));
        assert(y.skip(i as int).drop_first() =~= y.skip(i + 1));
        i += 1;
    }
    i < b.len()
}

/// What the components of a run of paths are.
spec fn keys_view(s: Seq<Vec<Vec<char>>>) -> Seq<Seq<Seq<char>>> {
    s.map_values(|k: Vec<Vec<char>>| chars_view(k@))
}

/// Whether components are in order.
spec fn ascending(s: Seq<Seq<Seq<char>>>) -> bool {
    forall|i: int, j: int| 0 <= i < j < s.len() ==> parts_before(#[trigger] s[i], #[trigger] s[j])
}

/// Where components belong among some that are in order: all before that
/// place come before them, and none from it on does.
fn place_of(keys: &Vec<Vec<Vec<char>>>, key: &Vec<Vec<char>>) -> (at: usize)
    requires
        ascending(keys_view(keys@)),
    ensures
        at <= keys@.len(),
        forall|i: int| 0 <= i < at ==> parts_before(#[trigger] keys_view(keys@)[i], chars_view(key@)),
        forall|i: int|
            at <= i < keys@.len() ==> !parts_before(
                #[trigger] keys_view(keys@)[i],
                chars_view(key@),
            ),
{
    let ghost all = keys_view(keys@);
    let ghost k = chars_view(key@);
    let mut lo: usize = 0;
    let mut hi: usize = keys.len();
    while lo < hi
        invariant
            lo <= hi <= keys@.len(),
            all == keys_view(keys@),
            k == chars_view(key@),
            ascending(all),
            forall|i: int| 0 <= i < lo ==> parts_before(#[trigger] all[i], k),
            forall|i: int| hi <= i < keys@.len() ==> !parts_before(#[trigger] all[i], k),
        decreases hi - lo,
    {
        let mid: usize = lo + (hi - lo) / 2;
        assert(all[mid as int] == chars_view(keys@[mid as int]@));
        if goes_before(&keys[mid], key) {
            assert forall|i: int| 0 <= i < mid + 1 implies parts_before(#[trigger] all[i], k) by {
                if i < mid {
                    lemma_parts_chain(all[i], all[mid as int], k);
                }
            }
            lo = mid + 1;
        } else {
            assert forall|i: int| mid <= i < keys@.len() implies !parts_before(
                #[trigger] all[i],
                k,
            ) by {
                if i > mid && parts_before(all[i], k) {
                    lemma_parts_chain(all[mid as int], all[i], k);
                }
            }
            hi = mid;
        }
    }
    lo
}

/// Whether `out` is some paths in ascending order, each of them once and in
/// its first spelling.
pub open spec fn ordered(paths: Seq<Seq<char>>, out: Seq<Seq<char>>) -> bool {
    &&& forall|i: int, j: int|
        0 <= i < j < out.len() ==> path_before(#[trigger] out[i], #[trigger] out[j])
    &&& forall|i: int| 0 <= i < out.len() ==> first_spelling(paths, #[trigger] out[i])
    &&& forall|k: int| 0 <= k < paths.len() ==> is_among(out, #[trigger] paths[k])
}

/// The first spellings stay the first when one more path follows.
proof fn lemma_still_first(paths: Seq<Seq<char>>, more: Seq<char>, p: Seq<char>)
    requires
        first_spelling(paths, p),
    ensures
        first_spelling(paths.push(more), p),
{
    let all = paths.push(more);
    let m = choose|m: int|
        0 <= m < paths.len() && #[trigger] paths[m] == p && forall|n: int|
            0 <= n < m ==> parts_of(#[trigger] paths[n]) != parts_of(p);
    assert(all[m] == p);
    assert forall|n: int| 0 <= n < m implies parts_of(#[trigger] all[n]) != parts_of(p) by {
        assert(paths[n] == all[n]);
    }
}

proof fn lemma_known(paths: Seq<Seq<char>>, out: Seq<Seq<char>>, p: Seq<char>)
    requires
        ordered(paths, out),
        is_among(out, p),
    ensures
        ordered(paths.push(p), out),
{
    assert forall|i: int| 0 <= i < out.len() implies first_spelling(
        paths.push(p),
        #[trigger] out[i],
    ) by {
        lemma_still_first(paths, p, out[i]);
    }
    assert forall|k: int| 0 <= k < paths.push(p).len() implies is_among(
        out,
        #[trigger] paths.push(p)[k],
    ) by {
        if k < paths.len() {
            assert(is_among(out, paths[k]));
        }
    }
}

proof fn lemma_new(paths: Seq<Seq<char>>, out: Seq<Seq<char>>, p: Seq<char>, at: int)
    requires
        ordered(paths, out),
        0 <= at <= out.len(),
        forall|i: int| 0 <= i < at ==> path_before(#[trigger] out[i], p),
        forall|i: int| at <= i < out.len() ==> path_before(p, #[trigger] out[i]),
    ensures
        ordered(paths.push(p), out.insert(at, p)),
{
    let all = paths.push(p);
    let now = out.insert(at, p);
    assert forall|a: int, b: int| 0 <= a < b < now.len() implies path_before(
        #[trigger] now[a],
        #[trigger] now[b],
    ) by {
        let x = if a < at {
            a
        } else {
            a - 1
        };
        let y = if b < at {
            b
        } else {
            b - 1
        };
        if a != at {
            assert(now[a] == out[x]);
        }
        if b != at {
            assert(now[b] == out[y]);
        }
    }
    assert(first_spelling(all, p)) by {
        assert(all[paths.len() as int] == p);
        assert forall|n: int| 0 <= n < paths.len() implies parts_of(#[trigger] all[n]) != parts_of(
            p,
        ) by {
            assert(is_among(out, paths[n]));
            let k = choose|k: int|
                0 <= k < out.len() && parts_of(#[trigger] out[k]) == parts_of(paths[n]);
            paths_are_ordered(out[k], p);
            paths_are_ordered(p, out[k]);
        }
    }
    assert forall|i: int| 0 <= i < now.len() implies first_spelling(all, #[trigger] now[i]) by {
        if i < at {
            assert(now[i] == out[i]);
            lemma_still_first(paths, p, out[i]);
        } else if i > at {
            assert(now[i] == out[i - 1]);
            lemma_still_first(paths, p, out[i - 1]);
        }
    }
    assert forall|k: int| 0 <= k < all.len() implies is_among(now, #[trigger] all[k]) by {
        if k < paths.len() {
            assert(is_among(out, paths[k]));
            let m = choose|m: int|
                0 <= m < out.len() && parts_of(#[trigger] out[m]) == parts_of(paths[k]);
            let n = if m < at {
                m
            } else {
                m + 1
            };
            assert(now[n] == out[m]);
        } else {
            assert(now[at] == p);
        }
    }
}

/// The components of some paths.
spec fn keys_of(paths: Seq<Seq<char>>) -> Seq<Seq<Seq<char>>> {
    paths.map_values(|p: Seq<char>| parts_of(p))
}

/// Where components belong among some that are in order; nowhere where they
/// are there already.
fn slot_for(keys: &Vec<Vec<Vec<char>>>, key: &Vec<Vec<char>>) -> (r: Option<usize>)
    requires
        ascending(keys_view(keys@)),
    ensures
        match r {
            Some(at) => {
                &&& at <= keys@.len()
                &&& forall|i: int|
                    0 <= i < at ==> parts_before(
                        #[trigger] keys_view(keys@)[i],
                        chars_view(key@),
                    )
                &&& forall|i: int|
                    at <= i < keys@.len() ==> parts_before(
                        chars_view(key@),
                        #[trigger] keys_view(keys@)[i],
                    )
            },
            None => keys_view(keys@).contains(chars_view(key@)),
        },
{
    let ghost all = keys_view(keys@);
    let ghost k = chars_view(key@);
    let at = place_of(keys, key);
    if at == keys.len() {
        return Some(at);
    }
    assert(all[at as int] == chars_view(keys@[at as int]@));
    if goes_before(key, &keys[at]) {
        assert forall|i: int| at <= i < keys@.len() implies parts_before(k, #[trigger] all[i]) by {
            if i > at {
                assert(parts_before(all[at as int], all[i]));
                lemma_parts_chain(k, all[at as int], all[i]);
            }
        }
        Some(at)
    } else {
        proof {
            lemma_parts_order(all[at as int], k);
        }
        None
    }
}

proof fn lemma_ascending(paths: Seq<Seq<char>>, out: Seq<Seq<char>>)
    requires
        ordered(paths, out),
    ensures
        ascending(keys_of(out)),
{
    let keys = keys_of(out);
    assert forall|a: int, b: int| 0 <= a < b < keys.len() implies parts_before(
        #[trigger] keys[a],
        #[trigger] keys[b],
    ) by {
        assert(path_before(out[a], out[b]));
    }
}

proof fn lemma_slot_found(paths: Seq<Seq<char>>, out: Seq<Seq<char>>, p: Seq<char>, at: int)
    requires
        ordered(paths, out),
        0 <= at <= out.len(),
        forall|i: int| 0 <= i < at ==> parts_before(#[trigger] keys_of(out)[i], parts_of(p)),
        forall|i: int| at <= i < out.len() ==> parts_before(parts_of(p), #[trigger] keys_of(out)[i]),
    ensures
        ordered(paths.push(p), out.insert(at, p)),
        keys_of(out.insert(at, p)) == keys_of(out).insert(at, parts_of(p)),
{
    assert forall|k: int| 0 <= k < at implies path_before(#[trigger] out[k], p) by {
        assert(keys_of(out)[k] == parts_of(out[k]));
    }
    assert forall|k: int| at <= k < out.len() implies path_before(p, #[trigger] out[k]) by {
        assert(keys_of(out)[k] == parts_of(out[k]));
    }
    lemma_new(paths, out, p, at);
    assert(keys_of(out.insert(at, p)) =~= keys_of(out).insert(at, parts_of(p)));
}

proof fn lemma_slot_taken(paths: Seq<Seq<char>>, out: Seq<Seq<char>>, p: Seq<char>)
    requires
        ordered(paths, out),
        keys_of(out).contains(parts_of(p)),
    ensures
        ordered(paths.push(p), out),
{
    let k = choose|k: int| 0 <= k < keys_of(out).len() && keys_of(out)[k] == parts_of(p);
    assert(parts_of(out[k]) == parts_of(p));
    lemma_known(paths, out, p);
}

/// Put a path among some that are in order.
fn add_path(
    Ghost(paths): Ghost<Seq<Seq<char>>>,
    out: &mut Vec<String>,
    keys: &mut Vec<Vec<Vec<char>>>,
    path: &str,
)
    requires
        ordered(paths, texts(old(out)@)),
        keys_view(old(keys)@) == keys_of(texts(old(out)@)),
    ensures
        ordered(paths.push(path@), texts(final(out)@)),
        keys_view(final(keys)@) == keys_of(texts(final(out)@)),
{
    let ghost was = texts(out@);
    let ghost had = keys_view(keys@);
    proof {
        lemma_ascending(paths, was);
        assert(keys@.len() == had.len() && out@.len() == was.len());
    }
    let key = split_path(path);
    match slot_for(keys, &key) {
        Some(at) => {
            proof {
                lemma_slot_found(paths, was, path@, at as int);
            }
            keys.insert(at, key);
            out.insert(at, owned(path));
            proof {
                assert(keys_view(keys@) =~= had.insert(at as int, parts_of(path@)));
                assert(texts(out@) =~= was.insert(at as int, path@));
            }
        },
        None => {
            proof {
                lemma_slot_taken(paths, was, path@);
            }
        },
    }
}

/// Paths in ascending order, each of them once: the first spelling of each
/// is kept.
pub fn in_order(paths: Vec<String>) -> (out: Vec<String>)
    ensures
        ordered(texts(paths@), texts(out@)),
{
    let ghost all = texts(paths@);
    let mut out: Vec<String> = Vec::new();
    let mut keys: Vec<Vec<Vec<char>>> = Vec::new();
    let mut i: usize = 0;
    assert(ordered(all.take(0), texts(out@)));
    assert(keys_view(keys@) =~= keys_of(texts(out@)));
    while i < paths.len()
        invariant
            i <= paths@.len(),
            all == texts(paths@),
            keys_view(keys@) == keys_of(texts(out@)),
            ordered(all.take(i as int), texts(out@)),
        decreases paths@.len() - i,
    {
        add_path(Ghost(all.take(i as int)), &mut out, &mut keys, paths[i].as_str());
        assert(all.take(i + 1) =~= all.take(i as int).push(paths@[i as int]@));
        i += 1;
    }
    assert(all.take(i as int) =~= all);
    out
}

/// Where each path has one spelling, putting some in order neither adds one
/// nor loses one.
pub proof fn order_keeps_the_paths(paths: Seq<Seq<char>>, out: Seq<Seq<char>>, p: Seq<char>)
    requires
        ordered(paths, out),
        forall|i: int, j: int|
            0 <= i < paths.len() && 0 <= j < paths.len() && parts_of(#[trigger] paths[i])
                == parts_of(#[trigger] paths[j]) ==> paths[i] == paths[j],
    ensures
        paths.contains(p) <==> out.contains(p),
{
    if paths.contains(p) {
        let k = choose|k: int| 0 <= k < paths.len() && paths[k] == p;
        assert(is_among(out, paths[k]));
        let i = choose|i: int| 0 <= i < out.len() && parts_of(#[trigger] out[i]) == parts_of(p);
        assert(first_spelling(paths, out[i]));
        let m = choose|m: int|
            0 <= m < paths.len() && #[trigger] paths[m] == out[i] && forall|n: int|
                0 <= n < m ==> parts_of(#[trigger] paths[n]) != parts_of(out[i]);
        assert(paths[m] == paths[k]);
        assert(out[i] == p);
    }
    if out.contains(p) {
        let i = choose|i: int| 0 <= i < out.len() && out[i] == p;
        assert(first_spelling(paths, out[i]));
    }
}

} // verus!
