//! The text of the introspection protocol: names, path segments, words and
//! escaping.

use vstd::prelude::*;
use vstd::string::*;
use vstd::utf8::*;

use crate::chars::{
    chars_of, is_space, owned, parse_dec, parse_decimal, skip_space, slice_of, space, string_of,
    trim_start,
};

verus! {

/// Longest request line accepted before the connection is dropped.
pub const MAX_LINE: usize = 4096;

/// The longest name a path segment can be, in bytes.
pub const MAX_NAME: usize = 64;

// ---------------------------------------------------------------------
// splitting
// ---------------------------------------------------------------------

/// The position of the first `c` in `s`, or its length.
pub open spec fn find(s: Seq<char>, c: char) -> nat
    decreases s.len(),
{
    if s.len() == 0 || s[0] == c {
        0
    } else {
        1 + find(s.drop_first(), c)
    }
}

/// The pieces of `s` between one `c` and the next: always at least one.
pub open spec fn split(s: Seq<char>, c: char) -> Seq<Seq<char>>
    decreases s.len(),
{
    let i = find(s, c) as int;
    if i < s.len() {
        seq![s.take(i)] + split(s.skip(i + 1), c)
    } else {
        seq![s]
    }
}

/// The pieces put back together with `c` between them.
pub open spec fn joined(parts: Seq<Seq<char>>, c: char) -> Seq<char>
    decreases parts.len(),
{
    if parts.len() == 0 {
        Seq::empty()
    } else if parts.len() == 1 {
        parts[0]
    } else {
        parts[0] + seq![c] + joined(parts.drop_first(), c)
    }
}

/// The words of `s`: what stands between white space.
pub open spec fn words(s: Seq<char>) -> Seq<Seq<char>>
    decreases s.len(),
{
    let t = trim_start(s);
    if t.len() == 0 {
        Seq::empty()
    } else {
        let n = word_len(t) as int;
        proof {
            lemma_trim_start(s);
            lemma_word_len(t);
        }
        seq![t.take(n)] + words(t.skip(n))
    }
}

/// How many characters of `s`, from its start, are not white space.
pub open spec fn word_len(s: Seq<char>) -> nat
    decreases s.len(),
{
    if s.len() == 0 || is_space(s[0]) {
        0
    } else {
        1 + word_len(s.drop_first())
    }
}

pub proof fn lemma_trim_start(s: Seq<char>)
    ensures
        trim_start(s).len() <= s.len(),
        trim_start(s).len() > 0 ==> !is_space(trim_start(s)[0]),
    decreases s.len(),
{
    if s.len() > 0 && is_space(s[0]) {
        lemma_trim_start(s.drop_first());
    }
}

pub proof fn lemma_word_len(s: Seq<char>)
    ensures
        word_len(s) <= s.len(),
        s.len() > 0 && !is_space(s[0]) ==> word_len(s) > 0,
    decreases s.len(),
{
    if s.len() > 0 && !is_space(s[0]) {
        lemma_word_len(s.drop_first());
    }
}

pub proof fn lemma_find(s: Seq<char>, c: char, i: int)
    requires
        0 <= i <= s.len(),
        forall|k: int| 0 <= k < i ==> s[k] != c,
    ensures
        i < s.len() && s[i] == c ==> find(s, c) == i,
        i == s.len() ==> find(s, c) == i,
    decreases s.len(),
{
    if s.len() > 0 && i > 0 {
        let t = s.drop_first();
        assert(s[0] != c);
        assert forall|k: int| 0 <= k < i - 1 implies t[k] != c by {
            assert(t[k] == s[k + 1]);
        }
        lemma_find(t, c, i - 1);
        if i < s.len() {
            assert(t[i - 1] == s[i]);
        }
    }
}

pub proof fn lemma_find_bound(s: Seq<char>, c: char)
    ensures
        find(s, c) <= s.len(),
        find(s, c) < s.len() ==> s[find(s, c) as int] == c,
        forall|k: int| 0 <= k < find(s, c) ==> s[k] != c,
    decreases s.len(),
{
    if s.len() > 0 && s[0] != c {
        let t = s.drop_first();
        lemma_find_bound(t, c);
        assert forall|k: int| 0 <= k < find(s, c) implies s[k] != c by {
            if k > 0 {
                assert(s[k] == t[k - 1]);
            }
        }
        if find(s, c) < s.len() {
            assert(s[find(s, c) as int] == t[find(t, c) as int]);
        }
    }
}

/// The position of the first `c` in `v` from `from` on, or its length.
pub fn position(v: &[char], from: usize, c: char) -> (i: usize)
    requires
        from <= v.len(),
    ensures
        from <= i <= v.len(),
        i - from == find(v@.skip(from as int), c),
        forall|k: int| from <= k < i ==> v@[k] != c,
        i < v.len() ==> v@[i as int] == c,
{
    let mut i: usize = from;
    while i < v.len() && v[i] != c
        invariant
            from <= i <= v.len(),
            forall|k: int| from <= k < i ==> v@[k] != c,
        decreases v.len() - i,
    {
        i += 1;
    }
    proof {
        let s = v@.skip(from as int);
        assert forall|k: int| 0 <= k < i - from implies s[k] != c by {
            assert(s[k] == v@[from + k]);
        }
        lemma_find(s, c, i - from);
        if i < v.len() {
            assert(s[i - from] == v@[i as int]);
        }
    }
    i
}

/// `s` without the run of `c` at its start.
pub open spec fn strip_start(s: Seq<char>, c: char) -> Seq<char>
    decreases s.len(),
{
    if s.len() > 0 && s[0] == c {
        strip_start(s.drop_first(), c)
    } else {
        s
    }
}

/// `s` without the run of `c` at its end.
pub open spec fn strip_end(s: Seq<char>, c: char) -> Seq<char>
    decreases s.len(),
{
    if s.len() > 0 && s.last() == c {
        strip_end(s.drop_last(), c)
    } else {
        s
    }
}

/// `v` without the runs of `c` at its start and at its end.
pub fn stripped(v: &[char], c: char) -> (out: Vec<char>)
    ensures
        out@ == strip_end(strip_start(v@, c), c),
{
    let mut i: usize = 0;
    assert(v@.skip(0) =~= v@);
    while i < v.len() && v[i] == c
        invariant
            i <= v.len(),
            strip_start(v@, c) == strip_start(v@.skip(i as int), c),
        decreases v.len() - i,
    {
        assert(v@.skip(i as int).drop_first() =~= v@.skip(i + 1));
        i += 1;
    }
    let ghost t = v@.skip(i as int);
    assert(strip_start(v@, c) == t);
    let mut n: usize = v.len();
    assert(t.take(n - i) =~= t);
    while n > i && v[n - 1] == c
        invariant
            i <= n <= v.len(),
            t == v@.skip(i as int),
            strip_end(t, c) == strip_end(t.take(n - i), c),
        decreases n,
    {
        assert(t.take(n - i).last() == v@[n - 1]);
        assert(t.take(n - i).drop_last() =~= t.take(n - i - 1));
        n -= 1;
    }
    proof {
        if n > i {
            assert(t.take(n - i).last() == v@[n - 1]);
        }
        assert(t.take(n - i) =~= v@.subrange(i as int, n as int));
    }
    slice_of(v, i, n)
}

/// The pieces of `v` between one `c` and the next.
pub fn split_at(v: &[char], c: char) -> (out: Vec<Vec<char>>)
    ensures
        chars_view(out@) == split(v@, c),
{
    let mut out: Vec<Vec<char>> = Vec::new();
    let mut from: usize = 0;
    assert(v@.skip(0) =~= v@);
    assert(chars_view(out@) + split(v@, c) =~= split(v@, c));
    loop
        invariant_except_break
            from <= v.len(),
            chars_view(out@) + split(v@.skip(from as int), c) == split(v@, c),
        ensures
            chars_view(out@) == split(v@, c),
        decreases v.len() - from,
    {
        let ghost rest = v@.skip(from as int);
        let i: usize = position(v, from, c);
        let ghost before = out@;
        assert(rest.take(i - from) =~= v@.subrange(from as int, i as int));
        out.push(slice_of(v, from, i));
        assert(chars_view(out@) =~= chars_view(before).push(rest.take(i - from)));
        if i == v.len() {
            assert(rest.take(i - from) =~= rest);
            assert(chars_view(out@) =~= chars_view(before) + split(rest, c));
            break;
        }
        assert(rest.skip(i - from + 1) =~= v@.skip(i + 1));
        assert(chars_view(out@) + split(v@.skip(i + 1), c) =~= chars_view(before) + split(rest, c));
        from = i + 1;
    }
    out
}

/// A run of strings, as sequences.
pub open spec fn strings_view(s: Seq<String>) -> Seq<Seq<char>> {
    s.map_values(|v: String| v@)
}

pub proof fn lemma_joined_push(parts: Seq<Seq<char>>, x: Seq<char>, c: char)
    requires
        parts.len() > 0,
    ensures
        joined(parts.push(x), c) == joined(parts, c) + seq![c] + x,
    decreases parts.len(),
{
    let all = parts.push(x);
    if parts.len() == 1 {
        assert(all.drop_first() =~= seq![x]);
        assert(joined(seq![x], c) =~= x);
        assert(joined(all, c) =~= parts[0] + seq![c] + x);
    } else {
        lemma_joined_push(parts.drop_first(), x, c);
        assert(all.drop_first() =~= parts.drop_first().push(x));
        assert(joined(all, c) =~= joined(parts, c) + seq![c] + x);
    }
}

/// The strings put together with `c` between them.
pub fn join(parts: &Vec<String>, c: char) -> (out: String)
    ensures
        out@ == joined(strings_view(parts@), c),
{
    let mut out = String::new();
    let ghost all = strings_view(parts@);
    let mut i: usize = 0;
    assert(all.take(0) =~= Seq::<Seq<char>>::empty());
    while i < parts.len()
        invariant
            i <= parts.len(),
            all == strings_view(parts@),
            out@ == joined(all.take(i as int), c),
        decreases parts.len() - i,
    {
        proof {
            assert(all.take(i + 1) =~= all.take(i as int).push(all[i as int]));
            if i > 0 {
                lemma_joined_push(all.take(i as int), all[i as int], c);
            }
        }
        if i > 0 {
            out.push(c);
        }
        out.append(parts[i].as_str());
        assert(out@ =~= joined(all.take(i + 1), c));
        i += 1;
    }
    assert(all.take(i as int) =~= all);
    out
}

/// The words of `v`.
pub fn words_of(v: &[char]) -> (out: Vec<Vec<char>>)
    ensures
        chars_view(out@) == words(v@),
{
    let mut out: Vec<Vec<char>> = Vec::new();
    let mut from: usize = 0;
    assert(v@.skip(0) =~= v@);
    assert(chars_view(out@) =~= Seq::<Seq<char>>::empty());
    assert(chars_view(out@) + words(v@) =~= words(v@));
    loop
        invariant_except_break
            from <= v.len(),
            chars_view(out@) + words(v@.skip(from as int)) == words(v@),
        ensures
            chars_view(out@) == words(v@),
        decreases v.len() - from,
    {
        let ghost rest = v@.skip(from as int);
        let start: usize = skip_space(v, from);
        let ghost t = v@.skip(start as int);
        if start == v.len() {
            assert(t.len() == 0);
            assert(words(rest) =~= Seq::<Seq<char>>::empty());
            assert(chars_view(out@) =~= words(v@));
            break;
        }
        let mut end: usize = start;
        while end < v.len() && !space(v[end])
            invariant
                start <= end <= v.len(),
                t == v@.skip(start as int),
                word_len(t) == end - start + word_len(v@.skip(end as int)),
            decreases v.len() - end,
        {
            assert(v@.skip(end as int)[0] == v@[end as int]);
            assert(v@.skip(end as int).drop_first() =~= v@.skip(end + 1));
            end += 1;
        }
        proof {
            if end < v.len() {
                assert(v@.skip(end as int)[0] == v@[end as int]);
            }
            assert(word_len(v@.skip(end as int)) == 0);
            assert(t[0] == v@[start as int]);
            lemma_word_len(t);
            assert(t.skip(end - start) =~= v@.skip(end as int));
            assert(t.take(end - start) =~= v@.subrange(start as int, end as int));
        }
        let ghost before = out@;
        out.push(slice_of(v, start, end));
        proof {
            assert(chars_view(out@) =~= chars_view(before).push(t.take(end - start)));
            assert(chars_view(out@) + words(v@.skip(end as int)) =~= chars_view(before) + words(
                rest,
            ));
        }
        from = end;
    }
    out
}

/// A run of character vectors, as sequences.
pub open spec fn chars_view(s: Seq<Vec<char>>) -> Seq<Seq<char>> {
    s.map_values(|v: Vec<char>| v@)
}

// ---------------------------------------------------------------------
// names
// ---------------------------------------------------------------------

/// Whether a name can be a path segment: not empty, at most 64 bytes, and
/// without white space, slashes and brackets.
pub open spec fn is_addressable(s: Seq<char>) -> bool {
    &&& s.len() > 0
    &&& encode_utf8(s).len() <= MAX_NAME
    &&& forall|i: int|
        0 <= i < s.len() ==> !is_space(#[trigger] s[i]) && s[i] != '/' && s[i] != '[' && s[i] != ']'
}

/// Whether `name` can be used as a path segment.
///
/// A label's accessible name is its text, which is a sentence; an
/// addressable name is an identifier.
pub fn addressable(name: &str) -> (r: bool)
    ensures
        r == is_addressable(name@),
{
    let v = chars_of(name);
    let bytes = name.as_bytes();
    if v.len() == 0 || bytes.len() > MAX_NAME {
        return false;
    }
    let mut i: usize = 0;
    while i < v.len()
        invariant
            i <= v.len(),
            v@ == name@,
            forall|k: int|
                0 <= k < i ==> !is_space(#[trigger] v@[k]) && v@[k] != '/' && v@[k] != '[' && v@[k]
                    != ']',
        decreases v.len() - i,
    {
        let c = v[i];
        if space(c) || c == '/' || c == '[' || c == ']' {
            assert(v@[i as int] == c);
            return false;
        }
        i += 1;
    }
    true
}

/// `role[i]` as a role name and an index; a bare `role` means index 0.
pub open spec fn indexed(seg: Seq<char>) -> Option<(Seq<char>, nat)> {
    let i = find(seg, '[') as int;
    if i < seg.len() {
        let rest = seg.skip(i + 1);
        if rest.len() > 0 && rest.last() == ']' {
            match parse_dec(rest.drop_last(), usize::MAX as nat) {
                Some(n) => Some((seg.take(i), n)),
                None => None,
            }
        } else {
            None
        }
    } else {
        Some((seg, 0))
    }
}

/// `role[i]` → `("role", i)`; a bare `role` means index 0.
pub fn parse_indexed(seg: &str) -> (r: Option<(String, usize)>)
    ensures
        match r {
            Some(p) => indexed(seg@) == Some((p.0@, p.1 as nat)),
            None => indexed(seg@) is None,
        },
{
    let v = chars_of(seg);
    let i: usize = position(v.as_slice(), 0, '[');
    assert(v@.skip(0) =~= v@);
    if i == v.len() {
        return Some((owned(seg), 0));
    }
    let ghost rest = v@.skip(i + 1);
    if i + 1 == v.len() || v[v.len() - 1] != ']' {
        assert(rest.len() > 0 ==> rest.last() == v@.last());
        return None;
    }
    assert(rest.last() == ']');
    let digits = slice_of(v.as_slice(), i + 1, v.len() - 1);
    assert(digits@ =~= rest.drop_last());
    let role = slice_of(v.as_slice(), 0, i);
    assert(role@ =~= v@.take(i as int));
    match parse_decimal(digits.as_slice(), usize::MAX as u64) {
        Some(n) => Some((string_of(role.as_slice()), n as usize)),
        None => None,
    }
}

// ---------------------------------------------------------------------
// escaping
// ---------------------------------------------------------------------

/// How one character is written in a field.
pub open spec fn escaped_char(c: char) -> Seq<char> {
    if c == '\t' {
        seq!['\\', 't']
    } else if c == '\n' {
        seq!['\\', 'n']
    } else if c == '\r' {
        seq!['\\', 'r']
    } else if c == '\\' {
        seq!['\\', '\\']
    } else {
        seq![c]
    }
}

/// How a text is written in a field of the tab-separated line protocol.
pub open spec fn escaped(s: Seq<char>) -> Seq<char>
    decreases s.len(),
{
    if s.len() == 0 {
        Seq::empty()
    } else {
        escaped_char(s[0]) + escaped(s.drop_first())
    }
}

/// What a field stands for. An unknown escape keeps its backslash, and so
/// does one at the very end.
pub open spec fn unescaped(s: Seq<char>) -> Seq<char>
    decreases s.len(),
{
    if s.len() == 0 {
        Seq::empty()
    } else if s[0] != '\\' {
        seq![s[0]] + unescaped(s.drop_first())
    } else if s.len() == 1 {
        seq!['\\']
    } else {
        let c = s[1];
        let head = if c == 't' {
            seq!['\t']
        } else if c == 'n' {
            seq!['\n']
        } else if c == 'r' {
            seq!['\r']
        } else if c == '\\' {
            seq!['\\']
        } else {
            seq!['\\', c]
        };
        head + unescaped(s.skip(2))
    }
}

/// Unescaping undoes escaping, for every text.
pub proof fn escaping_round_trips(s: Seq<char>)
    ensures
        unescaped(escaped(s)) == s,
    decreases s.len(),
{
    if s.len() > 0 {
        let c = s[0];
        let tail = escaped(s.drop_first());
        escaping_round_trips(s.drop_first());
        let e = escaped(s);
        assert(s =~= seq![c] + s.drop_first());
        if escaped_char(c).len() == 1 {
            assert(e.drop_first() =~= tail);
        } else {
            assert(e.skip(2) =~= tail);
        }
        assert(unescaped(e) =~= seq![c] + unescaped(tail));
    }
}

/// A field holds no tab and no line break, so it cannot break the line it
/// stands in.
pub proof fn escaped_fields_hold_no_breaks(s: Seq<char>)
    ensures
        forall|i: int|
            0 <= i < escaped(s).len() ==> #[trigger] escaped(s)[i] != '\t' && escaped(s)[i] != '\n'
                && escaped(s)[i] != '\r',
    decreases s.len(),
{
    if s.len() > 0 {
        escaped_fields_hold_no_breaks(s.drop_first());
        let head = escaped_char(s[0]);
        let tail = escaped(s.drop_first());
        let all = escaped(s);
        assert forall|i: int| 0 <= i < all.len() implies #[trigger] all[i] != '\t' && all[i] != '\n'
            && all[i] != '\r' by {
            if i >= head.len() {
                assert(all[i] == tail[i - head.len()]);
            } else {
                assert(all[i] == head[i]);
            }
        }
    }
}

/// Escape a field for the tab-separated line protocol.
pub fn escape(s: &str) -> (out: String)
    ensures
        out@ == escaped(s@),
{
    let v = chars_of(s);
    let mut out = String::new();
    let mut i: usize = 0;
    assert(v@.skip(0) =~= v@);
    while i < v.len()
        invariant
            i <= v.len(),
            v@ == s@,
            out@ + escaped(v@.skip(i as int)) == escaped(v@),
        decreases v.len() - i,
    {
        let c = v[i];
        let ghost before = out@;
        assert(v@.skip(i as int)[0] == c);
        assert(v@.skip(i as int).drop_first() =~= v@.skip(i + 1));
        if c == '\t' {
            out.push('\\');
            out.push('t');
        } else if c == '\n' {
            out.push('\\');
            out.push('n');
        } else if c == '\r' {
            out.push('\\');
            out.push('r');
        } else if c == '\\' {
            out.push('\\');
            out.push('\\');
        } else {
            out.push(c);
        }
        assert(out@ =~= before + escaped_char(c));
        assert(out@ + escaped(v@.skip(i + 1)) =~= before + (escaped_char(c) + escaped(
            v@.skip(i + 1),
        )));
        i += 1;
    }
    assert(v@.skip(i as int) =~= Seq::<char>::empty());
    assert(out@ =~= escaped(v@));
    out
}

/// Undo [`escape`]. An unknown escape keeps its backslash, so nothing is
/// silently lost.
pub fn unescape(s: &str) -> (out: String)
    ensures
        out@ == unescaped(s@),
{
    let v = chars_of(s);
    let mut out = String::new();
    let mut i: usize = 0;
    assert(v@.skip(0) =~= v@);
    while i < v.len()
        invariant
            i <= v.len(),
            v@ == s@,
            out@ + unescaped(v@.skip(i as int)) == unescaped(v@),
        decreases v.len() - i,
    {
        let c = v[i];
        let ghost before = out@;
        let ghost rest = v@.skip(i as int);
        assert(rest[0] == c);
        if c != '\\' {
            out.push(c);
            assert(rest.drop_first() =~= v@.skip(i + 1));
            assert(out@ + unescaped(v@.skip(i + 1)) =~= before + unescaped(rest));
            i += 1;
        } else if i + 1 == v.len() {
            out.push('\\');
            assert(v@.skip(i + 1) =~= Seq::<char>::empty());
            assert(out@ + unescaped(v@.skip(i + 1)) =~= before + unescaped(rest));
            i += 1;
        } else {
            let d = v[i + 1];
            assert(rest[1] == d);
            if d == 't' {
                out.push('\t');
            } else if d == 'n' {
                out.push('\n');
            } else if d == 'r' {
                out.push('\r');
            } else {
                if d != '\\' {
                    out.push('\\');
                }
                out.push(d);
            }
            assert(rest.skip(2) =~= v@.skip(i + 2));
            assert(out@ + unescaped(v@.skip(i + 2)) =~= before + unescaped(rest));
            i += 2;
        }
    }
    assert(v@.skip(i as int) =~= Seq::<char>::empty());
    assert(out@ =~= unescaped(v@));
    out
}

} // verus!
