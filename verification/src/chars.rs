//! Text as sequences of characters: comparison, trimming, decimal numbers
//! and the few conversions between `&str`, `String` and slices of `char`.

use vstd::prelude::*;
use vstd::string::*;
use vstd::std_specs::iter::IteratorSpec;

verus! {

/// `String::push` appends one character at the end.
pub assume_specification[ String::push ](s: &mut String, c: char)
    ensures
        final(s)@ == old(s)@.push(c),
;

/// The characters of `s`.
pub fn chars_of(s: &str) -> (out: Vec<char>)
    ensures
        out@ == s@,
{
    let mut out: Vec<char> = Vec::new();
    for c in it: s.chars()
        invariant
            out@ == it.seq().take(it.index()),
            it.seq() == s@,
    {
        out.push(c);
        assert(out@ =~= it.seq().take(it.index() + 1));
    }
    assert(out@ =~= s@);
    out
}

/// The string holding exactly the characters of `v`.
pub fn string_of(v: &[char]) -> (out: String)
    ensures
        out@ == v@,
{
    let mut out = String::new();
    let mut i: usize = 0;
    while i < v.len()
        invariant
            i <= v.len(),
            out@ == v@.take(i as int),
        decreases v.len() - i,
    {
        out.push(v[i]);
        i += 1;
        assert(v@.take(i as int) =~= v@.take(i - 1).push(v@[i - 1]));
    }
    assert(v@.take(i as int) =~= v@);
    out
}

/// An owned copy of `s`.
pub fn owned(s: &str) -> (out: String)
    ensures
        out@ == s@,
{
    s.to_owned()
}

/// Whether two slices of characters are the same text.
pub fn same(a: &[char], b: &[char]) -> (r: bool)
    ensures
        r == (a@ == b@),
{
    if a.len() != b.len() {
        return false;
    }
    let mut i: usize = 0;
    while i < a.len()
        invariant
            i <= a.len(),
            a.len() == b.len(),
            forall|j: int| 0 <= j < i ==> a@[j] == b@[j],
        decreases a.len() - i,
    {
        if a[i] != b[i] {
            return false;
        }
        i += 1;
    }
    assert(a@ =~= b@);
    true
}

/// Whether two strings are the same text.
pub fn text_eq(a: &str, b: &str) -> (r: bool)
    ensures
        r == (a@ == b@),
{
    let x = chars_of(a);
    let y = chars_of(b);
    same(x.as_slice(), y.as_slice())
}

/// The part of `v` from `from` up to `to`.
pub fn slice_of(v: &[char], from: usize, to: usize) -> (out: Vec<char>)
    requires
        from <= to <= v.len(),
    ensures
        out@ == v@.subrange(from as int, to as int),
{
    let mut out: Vec<char> = Vec::new();
    let mut i: usize = from;
    while i < to
        invariant
            from <= i <= to,
            to <= v.len(),
            out@ == v@.subrange(from as int, i as int),
        decreases to - i,
    {
        out.push(v[i]);
        i += 1;
        assert(v@.subrange(from as int, i as int) =~= v@.subrange(from as int, i - 1).push(v@[i - 1]));
    }
    out
}

/// Append the characters of `tail` to `out`.
pub fn extend_chars(out: &mut Vec<char>, tail: &[char])
    ensures
        final(out)@ == old(out)@ + tail@,
{
    let mut i: usize = 0;
    while i < tail.len()
        invariant
            i <= tail.len(),
            out@ == old(out)@ + tail@.take(i as int),
        decreases tail.len() - i,
    {
        out.push(tail[i]);
        i += 1;
        assert(tail@.take(i as int) =~= tail@.take(i - 1).push(tail@[i - 1]));
        assert(old(out)@ + tail@.take(i as int) =~= (old(out)@ + tail@.take(i - 1)).push(tail@[i - 1]));
    }
    assert(tail@.take(i as int) =~= tail@);
}

// ---------------------------------------------------------------------
// whitespace
// ---------------------------------------------------------------------

/// The characters with the Unicode `White_Space` property.
pub open spec fn is_space(c: char) -> bool {
    ||| '\u{9}' <= c <= '\u{d}'
    ||| c == ' '
    ||| c == '\u{85}'
    ||| c == '\u{a0}'
    ||| c == '\u{1680}'
    ||| '\u{2000}' <= c <= '\u{200a}'
    ||| c == '\u{2028}'
    ||| c == '\u{2029}'
    ||| c == '\u{202f}'
    ||| c == '\u{205f}'
    ||| c == '\u{3000}'
}

/// Whether `c` is white space.
pub fn space(c: char) -> (r: bool)
    ensures
        r == is_space(c),
{
    ('\u{9}' <= c && c <= '\u{d}') || c == ' ' || c == '\u{85}' || c == '\u{a0}' || c == '\u{1680}'
        || ('\u{2000}' <= c && c <= '\u{200a}') || c == '\u{2028}' || c == '\u{2029}' || c
        == '\u{202f}' || c == '\u{205f}' || c == '\u{3000}'
}

/// `s` without the white space at its start.
pub open spec fn trim_start(s: Seq<char>) -> Seq<char>
    decreases s.len(),
{
    if s.len() > 0 && is_space(s[0]) {
        trim_start(s.drop_first())
    } else {
        s
    }
}

/// `s` without the white space at its end.
pub open spec fn trim_end(s: Seq<char>) -> Seq<char>
    decreases s.len(),
{
    if s.len() > 0 && is_space(s.last()) {
        trim_end(s.drop_last())
    } else {
        s
    }
}

/// `s` without the white space at either end.
pub open spec fn trim(s: Seq<char>) -> Seq<char> {
    trim_end(trim_start(s))
}

/// Trimming takes white space off both ends and nothing else: what is left is
/// a part of the text, everything around it is white space, and it neither
/// starts nor ends with any.
pub proof fn trimming_takes_only_white_space_off(s: Seq<char>)
    ensures
        exists|i: int, j: int|
            {
                &&& 0 <= i <= j <= s.len()
                &&& trim(s) == #[trigger] s.subrange(i, j)
                &&& forall|k: int| 0 <= k < i ==> is_space(#[trigger] s[k])
                &&& forall|k: int| j <= k < s.len() ==> is_space(#[trigger] s[k])
            },
        trim(s).len() > 0 ==> !is_space(trim(s)[0]) && !is_space(trim(s).last()),
{
    let i = lemma_trim_start(s);
    let t = trim_start(s);
    let n = lemma_trim_end(t);
    let j = i + n;
    assert(trim(s) =~= s.subrange(i, j));
    assert forall|k: int| j <= k < s.len() implies is_space(#[trigger] s[k]) by {
        assert(t[k - i] == s[k]);
    }
    if trim(s).len() > 0 {
        assert(trim(s)[0] == t[0]);
    }
}

proof fn lemma_trim_start(s: Seq<char>) -> (i: int)
    ensures
        0 <= i <= s.len(),
        trim_start(s) == s.subrange(i, s.len() as int),
        forall|k: int| 0 <= k < i ==> is_space(#[trigger] s[k]),
        i < s.len() ==> !is_space(s[i]),
    decreases s.len(),
{
    if s.len() > 0 && is_space(s[0]) {
        let rest = s.drop_first();
        let i = lemma_trim_start(rest);
        assert(trim_start(s) =~= s.subrange(i + 1, s.len() as int));
        assert forall|k: int| 0 <= k < i + 1 implies is_space(#[trigger] s[k]) by {
            if k > 0 {
                assert(rest[k - 1] == s[k]);
            }
        }
        i + 1
    } else {
        assert(s =~= s.subrange(0, s.len() as int));
        0
    }
}

proof fn lemma_trim_end(s: Seq<char>) -> (n: int)
    ensures
        0 <= n <= s.len(),
        trim_end(s) == s.subrange(0, n),
        forall|k: int| n <= k < s.len() ==> is_space(#[trigger] s[k]),
        n > 0 ==> !is_space(s[n - 1]),
    decreases s.len(),
{
    if s.len() > 0 && is_space(s.last()) {
        let head = s.drop_last();
        let n = lemma_trim_end(head);
        assert(trim_end(s) =~= s.subrange(0, n));
        assert forall|k: int| n <= k < s.len() implies is_space(#[trigger] s[k]) by {
            if k < head.len() {
                assert(head[k] == s[k]);
            }
        }
        if n > 0 {
            assert(head[n - 1] == s[n - 1]);
        }
        n
    } else {
        assert(s =~= s.subrange(0, s.len() as int));
        s.len() as int
    }
}

/// The index of the first character of `v` that is not white space.
pub fn skip_space(v: &[char], from: usize) -> (i: usize)
    requires
        from <= v.len(),
    ensures
        from <= i <= v.len(),
        trim_start(v@.skip(from as int)) == v@.skip(i as int),
        forall|j: int| from <= j < i ==> is_space(v@[j]),
        i < v.len() ==> !is_space(v@[i as int]),
{
    let mut i: usize = from;
    while i < v.len() && space(v[i])
        invariant
            from <= i <= v.len(),
            trim_start(v@.skip(from as int)) == trim_start(v@.skip(i as int)),
            forall|j: int| from <= j < i ==> is_space(v@[j]),
        decreases v.len() - i,
    {
        assert(v@.skip(i as int).drop_first() =~= v@.skip(i + 1));
        i += 1;
    }
    i
}

/// `v` without the white space at its start.
pub fn trimmed_start(v: &[char]) -> (out: Vec<char>)
    ensures
        out@ == trim_start(v@),
{
    let i: usize = skip_space(v, 0);
    assert(v@.skip(0) =~= v@);
    assert(v@.skip(i as int) =~= v@.subrange(i as int, v@.len() as int));
    slice_of(v, i, v.len())
}

/// `v` without the white space at its end.
pub fn trimmed_end(v: &[char]) -> (out: Vec<char>)
    ensures
        out@ == trim_end(v@),
{
    let mut n: usize = v.len();
    assert(v@.take(n as int) =~= v@);
    while n > 0 && space(v[n - 1])
        invariant
            n <= v.len(),
            trim_end(v@) == trim_end(v@.take(n as int)),
        decreases n,
    {
        assert(v@.take(n as int).drop_last() =~= v@.take(n - 1));
        n -= 1;
    }
    assert(v@.take(n as int) =~= v@.subrange(0, n as int));
    slice_of(v, 0, n)
}

/// `v` without the white space at either end.
pub fn trimmed(v: &[char]) -> (out: Vec<char>)
    ensures
        out@ == trim(v@),
{
    let head = trimmed_start(v);
    trimmed_end(head.as_slice())
}

// ---------------------------------------------------------------------
// decimal numbers
// ---------------------------------------------------------------------

/// Whether `c` is an ASCII digit.
pub open spec fn is_digit(c: char) -> bool {
    '0' <= c <= '9'
}

/// The digit character for `d`, which is below ten.
pub open spec fn digit(d: nat) -> char {
    ('0' as nat + d) as char
}

/// `n` written in decimal, without leading zeros.
pub open spec fn dec(n: nat) -> Seq<char>
    decreases n,
{
    if n < 10 {
        seq![digit(n)]
    } else {
        dec(n / 10).push(digit(n % 10))
    }
}

/// The number a run of digits stands for.
pub open spec fn value_of(s: Seq<char>) -> nat
    decreases s.len(),
{
    if s.len() == 0 {
        0
    } else {
        10 * value_of(s.drop_last()) + (s.last() as nat - '0' as nat) as nat
    }
}

/// Whether every character of `s` is a digit.
pub open spec fn all_digits(s: Seq<char>) -> bool {
    forall|i: int| 0 <= i < s.len() ==> is_digit(#[trigger] s[i])
}

/// What is left of `s` once one leading `+` is taken off.
pub open spec fn unsigned_part(s: Seq<char>) -> Seq<char> {
    if s.len() > 0 && s[0] == '+' {
        s.drop_first()
    } else {
        s
    }
}

/// An unsigned decimal number no larger than `max`: an optional `+` and at
/// least one digit, and nothing else.
pub open spec fn parse_dec(s: Seq<char>, max: nat) -> Option<nat> {
    let body = unsigned_part(s);
    if body.len() > 0 && all_digits(body) && value_of(body) <= max {
        Some(value_of(body))
    } else {
        None
    }
}

proof fn lemma_digit(d: nat)
    requires
        d < 10,
    ensures
        is_digit(digit(d)),
        digit(d) as nat == '0' as nat + d,
{
}

pub proof fn lemma_dec(n: nat)
    ensures
        dec(n).len() > 0,
        all_digits(dec(n)),
        value_of(dec(n)) == n,
    decreases n,
{
    if n < 10 {
        lemma_digit(n);
        let s = dec(n);
        assert(s.drop_last() =~= Seq::<char>::empty());
        assert(value_of(s.drop_last()) == 0);
    } else {
        lemma_dec(n / 10);
        lemma_digit(n % 10);
        let head = dec(n / 10);
        let s = head.push(digit(n % 10));
        assert(s.drop_last() =~= head);
        assert forall|i: int| 0 <= i < s.len() implies is_digit(#[trigger] s[i]) by {
            if i < head.len() {
                assert(s[i] == head[i]);
            }
        }
    }
}

/// Reading back a number that was written in decimal gives that number.
pub proof fn decimal_round_trip(n: nat, max: nat)
    requires
        n <= max,
    ensures
        parse_dec(dec(n), max) == Some(n),
{
    lemma_dec(n);
    assert(is_digit(dec(n)[0]));
}

/// `n` in decimal.
pub fn decimal_chars(n: u64) -> (out: Vec<char>)
    ensures
        out@ == dec(n as nat),
    decreases n,
{
    proof {
        lemma_digit((n % 10) as nat);
    }
    let d: u8 = 48 + (n % 10) as u8;
    let c: char = d as char;
    if n < 10 {
        let mut out: Vec<char> = Vec::new();
        out.push(c);
        assert(out@ =~= dec(n as nat));
        out
    } else {
        let mut out = decimal_chars(n / 10);
        out.push(c);
        out
    }
}

/// `n` in decimal, with a minus sign where it is negative.
pub open spec fn signed_dec(n: int) -> Seq<char> {
    if n < 0 {
        seq!['-'] + dec((-n) as nat)
    } else {
        dec(n as nat)
    }
}

/// `n` in decimal, with a minus sign where it is negative.
pub fn signed_decimal(n: i32) -> (out: String)
    ensures
        out@ == signed_dec(n as int),
{
    if n < 0 {
        let mut out = String::new();
        out.push('-');
        let wide: i64 = n as i64;
        let digits = decimal((-wide) as u64);
        out.append(digits.as_str());
        assert(out@ =~= signed_dec(n as int));
        out
    } else {
        decimal(n as u64)
    }
}

/// `n` in decimal, as a string.
pub fn decimal(n: u64) -> (out: String)
    ensures
        out@ == dec(n as nat),
{
    let v = decimal_chars(n);
    string_of(v.as_slice())
}

proof fn lemma_value_mono(s: Seq<char>, i: int)
    requires
        0 <= i <= s.len(),
    ensures
        value_of(s.take(i)) <= value_of(s),
    decreases s.len() - i,
{
    if i < s.len() {
        lemma_value_mono(s, i + 1);
        assert(s.take(i + 1).drop_last() =~= s.take(i));
    } else {
        assert(s.take(i) =~= s);
    }
}

/// Read an unsigned decimal number no larger than `max`.
pub fn parse_decimal(v: &[char], max: u64) -> (r: Option<u64>)
    ensures
        match r {
            Some(n) => parse_dec(v@, max as nat) == Some(n as nat),
            None => parse_dec(v@, max as nat) is None,
        },
{
    let start: usize = if v.len() > 0 && v[0] == '+' {
        1
    } else {
        0
    };
    let ghost body = unsigned_part(v@);
    assert(body =~= v@.skip(start as int));
    if start == v.len() {
        return None;
    }
    let mut n: u64 = 0;
    let mut i: usize = start;
    assert(body.take(0) =~= Seq::<char>::empty());
    while i < v.len()
        invariant
            start <= i <= v.len(),
            body == v@.skip(start as int),
            body == unsigned_part(v@),
            forall|j: int| 0 <= j < i - start ==> is_digit(#[trigger] body[j]),
            n == value_of(body.take(i - start)),
            n <= max,
        decreases v.len() - i,
    {
        let c: char = v[i];
        assert(body[i - start] == c);
        if !('0' <= c && c <= '9') {
            return None;
        }
        let d: u64 = c as u64 - '0' as u64;
        proof {
            assert(body.take(i - start + 1).drop_last() =~= body.take(i - start));
            assert(value_of(body.take(i - start + 1)) == 10 * n + d);
            lemma_value_mono(body, i - start + 1);
        }
        if d > max || n > (max - d) / 10 {
            return None;
        }
        n = n * 10 + d;
        i += 1;
    }
    assert(body.take(i - start) =~= body);
    Some(n)
}

// ---------------------------------------------------------------------
// order and case
// ---------------------------------------------------------------------

/// Whether `a` comes before `b`, character by character.
pub open spec fn text_before(a: Seq<char>, b: Seq<char>) -> bool
    decreases a.len(),
{
    if b.len() == 0 {
        false
    } else if a.len() == 0 {
        true
    } else if a[0] == b[0] {
        text_before(a.drop_first(), b.drop_first())
    } else {
        a[0] < b[0]
    }
}

pub proof fn lemma_text_order(a: Seq<char>, b: Seq<char>)
    ensures
        text_before(a, b) || text_before(b, a) || a == b,
        !(text_before(a, b) && text_before(b, a)),
        !text_before(a, a),
    decreases a.len(),
{
    if a.len() > 0 && b.len() > 0 && a[0] == b[0] {
        lemma_text_order(a.drop_first(), b.drop_first());
        if a.drop_first() == b.drop_first() {
            assert(a =~= seq![a[0]] + a.drop_first());
            assert(b =~= seq![b[0]] + b.drop_first());
        }
    }
    if a.len() > 0 {
        lemma_text_order(a.drop_first(), a.drop_first());
    }
    if a.len() == 0 && b.len() == 0 {
        assert(a =~= b);
    }
}

pub proof fn lemma_text_chain(a: Seq<char>, b: Seq<char>, c: Seq<char>)
    requires
        text_before(a, b),
        text_before(b, c),
    ensures
        text_before(a, c),
    decreases a.len(),
{
    if a.len() > 0 && a[0] == b[0] && b[0] == c[0] {
        lemma_text_chain(a.drop_first(), b.drop_first(), c.drop_first());
    }
}

/// Texts are in the order of a dictionary: where two have a beginning in
/// common, the first character behind it decides, and a text comes before
/// whatever goes on from it.
pub proof fn the_first_difference_decides(p: Seq<char>, a: Seq<char>, b: Seq<char>)
    ensures
        a.len() > 0 && b.len() > 0 && a[0] != b[0] ==> text_before(p + a, p + b) == (a[0] < b[0]),
        b.len() > 0 ==> text_before(p, p + b),
        !text_before(p + b, p),
    decreases p.len(),
{
    if p.len() == 0 {
        assert(p + a =~= a);
        assert(p + b =~= b);
    } else {
        let t = p.drop_first();
        the_first_difference_decides(t, a, b);
        assert((p + a).drop_first() =~= t + a);
        assert((p + b).drop_first() =~= t + b);
    }
}

/// Whether `a` comes before `b`, character by character: the order of their
/// UTF-8 bytes.
pub fn comes_before(a: &[char], b: &[char]) -> (r: bool)
    ensures
        r == text_before(a@, b@),
{
    let mut i: usize = 0;
    assert(a@.skip(0) =~= a@);
    assert(b@.skip(0) =~= b@);
    while i < a.len() && i < b.len() && a[i] == b[i]
        invariant
            i <= a.len(),
            i <= b.len(),
            text_before(a@, b@) == text_before(a@.skip(i as int), b@.skip(i as int)),
        decreases a.len() - i,
    {
        assert(a@.skip(i as int).drop_first() =~= a@.skip(i + 1));
        assert(b@.skip(i as int).drop_first() =~= b@.skip(i + 1));
        i += 1;
    }
    if i == b.len() {
        false
    } else if i == a.len() {
        true
    } else {
        a[i] < b[i]
    }
}

/// `s` with `x` behind everything that does not come after it.
pub open spec fn text_inserted(s: Seq<Seq<char>>, x: Seq<char>) -> Seq<Seq<char>>
    decreases s.len(),
{
    if s.len() == 0 || !text_before(x, s.last()) {
        s.push(x)
    } else {
        text_inserted(s.drop_last(), x).push(s.last())
    }
}

/// `s` in order.
pub open spec fn text_sorted(s: Seq<Seq<char>>) -> Seq<Seq<char>>
    decreases s.len(),
{
    if s.len() == 0 {
        s
    } else {
        text_inserted(text_sorted(s.drop_last()), s.last())
    }
}

/// Sorting keeps every text as often as it was there, and no text is behind
/// one that it comes before.
pub proof fn sorting_orders_and_keeps(s: Seq<Seq<char>>)
    ensures
        text_sorted(s).to_multiset() == s.to_multiset(),
        text_sorted(s).len() == s.len(),
        forall|i: int, j: int|
            0 <= i < j < text_sorted(s).len() ==> !text_before(
                #[trigger] text_sorted(s)[j],
                #[trigger] text_sorted(s)[i],
            ),
    decreases s.len(),
{
    broadcast use vstd::seq_lib::group_to_multiset_ensures;

    if s.len() > 0 {
        let head = s.drop_last();
        sorting_orders_and_keeps(head);
        lemma_text_inserted(text_sorted(head), s.last());
        assert(s =~= head.push(s.last()));
    }
}

proof fn lemma_text_inserted(s: Seq<Seq<char>>, x: Seq<char>)
    requires
        forall|i: int, j: int|
            0 <= i < j < s.len() ==> !text_before(#[trigger] s[j], #[trigger] s[i]),
    ensures
        text_inserted(s, x).len() == s.len() + 1,
        text_inserted(s, x).to_multiset() == s.push(x).to_multiset(),
        forall|i: int, j: int|
            0 <= i < j < s.len() + 1 ==> !text_before(
                #[trigger] text_inserted(s, x)[j],
                #[trigger] text_inserted(s, x)[i],
            ),
        forall|i: int|
            0 <= i < s.len() + 1 ==> s.contains(#[trigger] text_inserted(s, x)[i])
                || text_inserted(s, x)[i] == x,
    decreases s.len(),
{
    broadcast use vstd::seq_lib::group_to_multiset_ensures;

    let out = text_inserted(s, x);
    if s.len() == 0 || !text_before(x, s.last()) {
        assert(out == s.push(x));
        assert forall|i: int, j: int| 0 <= i < j < out.len() implies !text_before(
            #[trigger] out[j],
            #[trigger] out[i],
        ) by {
            if j == s.len() && text_before(x, s[i]) {
                let z = s.last();
                if i < s.len() - 1 {
                    assert(!text_before(s[s.len() - 1], s[i]));
                    lemma_text_order(s[i], z);
                    if text_before(s[i], z) {
                        lemma_text_chain(x, s[i], z);
                    }
                }
            }
        }
        assert forall|i: int| 0 <= i < s.len() + 1 implies s.contains(#[trigger] out[i])
            || out[i] == x by {
            if i < s.len() {
                assert(out[i] == s[i]);
            }
        }
    } else {
        let head = s.drop_last();
        let z = s.last();
        lemma_text_inserted(head, x);
        let mid = text_inserted(head, x);
        assert(out == mid.push(z));
        assert(s =~= head.push(z));
        assert(s.push(x).to_multiset() =~= mid.push(z).to_multiset());
        assert forall|i: int, j: int| 0 <= i < j < out.len() implies !text_before(
            #[trigger] out[j],
            #[trigger] out[i],
        ) by {
            if j == mid.len() {
                assert(mid[i] == out[i]);
                if head.contains(mid[i]) {
                    let k = choose|k: int| 0 <= k < head.len() && head[k] == mid[i];
                    assert(!text_before(s[s.len() - 1], s[k]));
                } else {
                    lemma_text_order(x, z);
                }
            } else {
                assert(out[j] == mid[j] && out[i] == mid[i]);
            }
        }
        assert forall|i: int| 0 <= i < s.len() + 1 implies s.contains(#[trigger] out[i])
            || out[i] == x by {
            if i < mid.len() {
                assert(out[i] == mid[i]);
                if head.contains(mid[i]) {
                    let k = choose|k: int| 0 <= k < head.len() && head[k] == mid[i];
                    assert(s[k] == mid[i]);
                }
            } else {
                assert(s[s.len() - 1] == z);
            }
        }
    }
}

/// What a run of strings says.
pub open spec fn texts(s: Seq<String>) -> Seq<Seq<char>> {
    s.map_values(|t: String| t@)
}

/// Put a string into an ordered run.
pub fn insert_text(list: &mut Vec<String>, x: String)
    ensures
        texts(final(list)@) == text_inserted(texts(old(list)@), x@),
{
    let n: usize = list.len();
    let ghost before = list@;
    let ghost all = texts(before);
    let wide = chars_of(x.as_str());
    let mut i: usize = n;
    assert(all.take(n as int) =~= all);
    assert(all.skip(n as int) =~= Seq::<Seq<char>>::empty());
    assert(text_inserted(all, x@) =~= text_inserted(all, x@) + all.skip(n as int));
    loop
        invariant_except_break
            i <= n,
            n == list.len(),
            list@ == before,
            all == texts(before),
            wide@ == x@,
            text_inserted(all, x@) == text_inserted(all.take(i as int), x@) + all.skip(i as int),
        ensures
            i <= n,
            list@ == before,
            text_inserted(all, x@) == all.take(i as int).push(x@) + all.skip(i as int),
        decreases i,
    {
        if i == 0 {
            assert(all.take(0).len() == 0);
            break;
        }
        assert(all.take(i as int).last() == list@[i - 1]@);
        let other = chars_of(list[i - 1].as_str());
        if !comes_before(wide.as_slice(), other.as_slice()) {
            break;
        }
        proof {
            let head = all.take(i as int);
            assert(head.drop_last() =~= all.take(i - 1));
            assert(text_inserted(head, x@) == text_inserted(all.take(i - 1), x@).push(head.last()));
            assert(text_inserted(all.take(i - 1), x@).push(head.last()) + all.skip(i as int)
                =~= text_inserted(all.take(i - 1), x@) + all.skip(i - 1));
        }
        i -= 1;
    }
    list.insert(i, x);
    assert(texts(list@) =~= all.take(i as int).push(x@) + all.skip(i as int));
}

/// A character with ASCII capitals made small.
pub open spec fn lower_char(c: char) -> char {
    if 'A' <= c <= 'Z' {
        (c as u32 + 32) as char
    } else {
        c
    }
}

/// A text with ASCII capitals made small.
pub open spec fn lower(s: Seq<char>) -> Seq<char> {
    s.map_values(|c: char| lower_char(c))
}

/// Making capitals small leaves no ASCII capital, changes nothing else, and
/// makes two texts the same that differ in the case of ASCII letters only.
pub proof fn case_does_not_matter(s: Seq<char>, i: int)
    requires
        0 <= i < s.len(),
    ensures
        lower(s).len() == s.len(),
        !('A' <= lower(s)[i] <= 'Z'),
        !('A' <= s[i] <= 'Z') ==> lower(s)[i] == s[i],
        'A' <= s[i] <= 'Z' ==> lower(s)[i] as int == s[i] as int + ('a' as int - 'A' as int),
        lower(lower(s)) == lower(s),
{
    assert(lower(lower(s)) =~= lower(s));
}

/// A text with ASCII capitals made small.
pub fn lowered(v: &[char]) -> (out: Vec<char>)
    ensures
        out@ == lower(v@),
{
    let mut out: Vec<char> = Vec::new();
    let mut i: usize = 0;
    while i < v.len()
        invariant
            i <= v.len(),
            out@.len() == i,
            forall|k: int| 0 <= k < i ==> out@[k] == lower_char(v@[k]),
        decreases v.len() - i,
    {
        let c = v[i];
        if 'A' <= c && c <= 'Z' {
            let b: u8 = c as u8;
            out.push((b + 32) as char);
        } else {
            out.push(c);
        }
        i += 1;
    }
    assert(out@ =~= lower(v@));
    out
}

/// Whether `t` stands somewhere in `s`.
pub open spec fn holds(s: Seq<char>, t: Seq<char>) -> bool {
    exists|i: int| 0 <= i <= s.len() - t.len() && #[trigger] s.subrange(i, i + t.len()) == t
}

/// Whether `t` stands somewhere in `s`.
pub fn contains_text(s: &[char], t: &[char]) -> (r: bool)
    ensures
        r == holds(s@, t@),
{
    if t.len() > s.len() {
        return false;
    }
    let last: usize = s.len() - t.len();
    let mut i: usize = 0;
    loop
        invariant_except_break
            i <= last,
            last == s.len() - t.len(),
            forall|k: int| 0 <= k < i ==> #[trigger] s@.subrange(k, k + t@.len()) != t@,
        ensures
            forall|k: int| 0 <= k <= last ==> #[trigger] s@.subrange(k, k + t@.len()) != t@,
            last == s.len() - t.len(),
        decreases last - i,
    {
        let part = slice_of(s, i, i + t.len());
        if same(part.as_slice(), t) {
            assert(s@.subrange(i as int, i + t@.len()) == t@);
            return true;
        }
        if i == last {
            break;
        }
        i += 1;
    }
    false
}

/// White space is what a typewriter leaves blank, its wide and narrow kinds
/// among it, and what breaks a line; no letter, digit or mark of ASCII is.
pub proof fn white_space_leaves_no_ink(c: char)
    ensures
        is_space(c) <==> ({
            let n = c as u32;
            ||| 9 <= n <= 13
            ||| n == 32 || n == 133 || n == 160
            ||| n == 5760
            ||| 8192 <= n <= 8202
            ||| 8232 <= n <= 8233
            ||| n == 8239 || n == 8287 || n == 12288
        }),
        33 <= (c as u32) < 127 ==> !is_space(c),
{
}

} // verus!
