//! What the loop of an app decides each time round: how long to sleep, what
//! woke it, and which descriptors to watch.

use vstd::prelude::*;

use crate::hooks::FdToken;

verus! {

/// The token of the connection to the server. Hooks count up from one and
/// never get there.
pub const CONN_TOKEN: u64 = 0xffff_ffff_ffff_ffff;

/// The token of the introspection listener.
pub const INTROSPECT_TOKEN: u64 = 0xffff_ffff_ffff_fffe;

/// How often connected introspection clients are looked at, in
/// milliseconds.
pub const BUSY_MS: u64 = 10;

/// How long the loop may sleep: until the next timer, and not for long
/// while a client is connected. None is for ever.
pub fn loop_timeout(next: Option<u64>, busy: bool) -> (ms: Option<u64>)
    ensures
        ms == (if busy {
            Some(
                match next {
                    Some(n) => if n < BUSY_MS {
                        n
                    } else {
                        BUSY_MS
                    },
                    None => BUSY_MS,
                },
            )
        } else {
            next
        }),
{
    if !busy {
        return next;
    }
    match next {
        Some(n) if n < BUSY_MS => Some(n),
        _ => Some(BUSY_MS),
    }
}

/// Milliseconds as seconds and nanoseconds.
pub fn timespec(ms: u64) -> (t: (i64, i64))
    ensures
        t.0 == ms / 1000,
        t.1 == (ms % 1000) * 1000000,
        0 <= t.1 < 1000000000,
        t.0 * 1000000000 + t.1 == ms * 1000000,
{
    ((ms / 1000) as i64, ((ms % 1000) * 1000000) as i64)
}

/// What woke the loop.
#[derive(Debug, Clone, Copy, PartialEq, Eq, Structural)]
pub enum Wake {
    /// The server said something.
    Connection,
    /// Somebody wants to look inside.
    Introspection,
    /// A hook's descriptor is readable.
    Hook(FdToken),
}

/// What a token stands for.
pub fn wake(token: u64) -> (w: Wake)
    ensures
        w == (if token == CONN_TOKEN {
            Wake::Connection
        } else if token == INTROSPECT_TOKEN {
            Wake::Introspection
        } else {
            Wake::Hook(FdToken(token))
        }),
{
    if token == CONN_TOKEN {
        Wake::Connection
    } else if token == INTROSPECT_TOKEN {
        Wake::Introspection
    } else {
        Wake::Hook(FdToken(token))
    }
}

/// The tokens that are wanted and not in the set yet, each once.
pub open spec fn to_add(want: Seq<u64>, have: Seq<u64>) -> Seq<u64>
    decreases want.len(),
{
    if want.len() == 0 {
        Seq::empty()
    } else {
        let before = to_add(want.drop_last(), have);
        if have.contains(want.last()) || before.contains(want.last()) {
            before
        } else {
            before.push(want.last())
        }
    }
}

fn holds(s: &Vec<u64>, x: u64) -> (r: bool)
    ensures
        r == s@.contains(x),
{
    let mut i: usize = 0;
    while i < s.len()
        invariant
            i <= s@.len(),
            forall|k: int| 0 <= k < i ==> s@[k] != x,
        decreases s.len() - i,
    {
        if s[i] == x {
            assert(s@[i as int] == x);
            return true;
        }
        i += 1;
    }
    false
}

/// The tokens to be added to the set of watched descriptors.
///
/// A hook that went away took its descriptor with it, which removed it from
/// the set: there is nothing to delete.
pub fn missing(want: &Vec<u64>, have: &Vec<u64>) -> (out: Vec<u64>)
    ensures
        out@ == to_add(want@, have@),
{
    let mut out: Vec<u64> = Vec::new();
    let mut i: usize = 0;
    while i < want.len()
        invariant
            i <= want@.len(),
            out@ == to_add(want@.take(i as int), have@),
        decreases want.len() - i,
    {
        assert(want@.take(i + 1).drop_last() =~= want@.take(i as int));
        if !holds(have, want[i]) && !holds(&out, want[i]) {
            out.push(want[i]);
        }
        i += 1;
    }
    assert(want@.take(i as int) =~= want@);
    out
}

/// The tokens of a set that are still wanted, in order.
pub open spec fn still_wanted(have: Seq<u64>, want: Seq<u64>) -> Seq<u64> {
    have.filter(|t: u64| want.contains(t))
}

/// The tokens of a set that are still wanted, in order.
pub fn retained(have: &Vec<u64>, want: &Vec<u64>) -> (out: Vec<u64>)
    ensures
        out@ == still_wanted(have@, want@),
{
    let mut out: Vec<u64> = Vec::new();
    let mut i: usize = 0;
    proof {
        reveal(Seq::filter);
    }
    while i < have.len()
        invariant
            i <= have@.len(),
            out@ == still_wanted(have@.take(i as int), want@),
        decreases have.len() - i,
    {
        proof {
            reveal(Seq::filter);
            assert(have@.take(i + 1).drop_last() =~= have@.take(i as int));
        }
        if holds(want, have[i]) {
            out.push(have[i]);
        }
        i += 1;
    }
    assert(have@.take(i as int) =~= have@);
    out
}

/// Bring the set of watched descriptors in line with what is wanted: what
/// has to be added to it, and what is in it then.
pub fn sync_fds(want: &Vec<u64>, have: &Vec<u64>) -> (r: (Vec<u64>, Vec<u64>))
    ensures
        r.0@ == to_add(want@, have@),
        r.1@ == still_wanted(have@ + to_add(want@, have@), want@),
{
    let add = missing(want, have);
    let mut all: Vec<u64> = Vec::new();
    let mut i: usize = 0;
    while i < have.len()
        invariant
            i <= have@.len(),
            all@ == have@.take(i as int),
        decreases have.len() - i,
    {
        all.push(have[i]);
        i += 1;
        assert(all@ =~= have@.take(i as int));
    }
    assert(have@.take(i as int) =~= have@);
    let mut k: usize = 0;
    assert(have@ + add@.take(0) =~= have@);
    while k < add.len()
        invariant
            k <= add@.len(),
            all@ == have@ + add@.take(k as int),
        decreases add.len() - k,
    {
        all.push(add[k]);
        k += 1;
        assert(all@ =~= have@ + add@.take(k as int));
    }
    assert(add@.take(k as int) =~= add@);
    let kept = retained(&all, want);
    (add, kept)
}

proof fn lemma_to_add(want: Seq<u64>, have: Seq<u64>, t: u64)
    ensures
        to_add(want, have).contains(t) <==> want.contains(t) && !have.contains(t),
        to_add(want, have).no_duplicates(),
    decreases want.len(),
{
    if want.len() > 0 {
        let rest = want.drop_last();
        lemma_to_add(rest, have, t);
        lemma_to_add(rest, have, want.last());
        let before = to_add(rest, have);
        assert(want[want.len() - 1] == want.last());
        if rest.contains(t) {
            let i = choose|i: int| 0 <= i < rest.len() && rest[i] == t;
            assert(want[i] == t);
        }
        if want.contains(t) && t != want.last() {
            let i = choose|i: int| 0 <= i < want.len() && want[i] == t;
            assert(rest[i] == t);
        }
        if !have.contains(want.last()) && !before.contains(want.last()) {
            let after = before.push(want.last());
            assert(after[after.len() - 1] == want.last());
            if before.contains(t) {
                let i = choose|i: int| 0 <= i < before.len() && before[i] == t;
                assert(after[i] == t);
            }
            if after.contains(t) && t != want.last() {
                let i = choose|i: int| 0 <= i < after.len() && after[i] == t;
                assert(before[i] == t);
            }
        }
    }
}

/// Once the set was brought in line, it holds exactly what is wanted, and
/// bringing it in line again adds nothing.
pub proof fn the_set_follows_the_hooks(want: Seq<u64>, have: Seq<u64>, t: u64)
    ensures
        still_wanted(have + to_add(want, have), want).contains(t) <==> want.contains(t),
        to_add(want, still_wanted(have + to_add(want, have), want)).len() == 0,
{
    let all = have + to_add(want, have);
    let wanted = |x: u64| want.contains(x);
    let set = still_wanted(all, want);
    broadcast use vstd::seq_lib::group_filter_ensures;

    assert forall|x: u64| #[trigger] set.contains(x) <==> want.contains(x) by {
        lemma_to_add(want, have, x);
        if want.contains(x) {
            if have.contains(x) {
                let i = choose|i: int| 0 <= i < have.len() && have[i] == x;
                assert(all[i] == x);
            } else {
                let added = to_add(want, have);
                let i = choose|i: int| 0 <= i < added.len() && added[i] == x;
                assert(all[have.len() + i] == x);
            }
        }
    }
    let again = to_add(want, set);
    if again.len() > 0 {
        lemma_to_add(want, set, again[0]);
        assert(again.contains(again[0]));
        assert(set.contains(again[0]) <==> want.contains(again[0]));
    }
}

} // verus!
