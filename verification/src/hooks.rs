//! Callbacks that an app hangs on its loop: descriptors, timers, handlers
//! and what was put off until the tree is whole again.
//!
//! `C` is what is called. A callback is taken out of its list while it runs,
//! because it is handed the tree that the list belongs to.

use vstd::prelude::*;

use crate::event::{mods, KeyEvent};

verus! {

// ---------------------------------------------------------------------
// descriptors
// ---------------------------------------------------------------------

/// A handle to a descriptor hook. It is never reused: a descriptor number is,
/// as soon as it is closed.
#[derive(Debug, Clone, Copy, PartialEq, Eq, Structural)]
pub struct FdToken(pub u64);

impl FdToken {
    /// The raw id, as the app loop's token.
    pub fn raw(self) -> (id: u64)
        ensures
            id == self.0,
    {
        self.0
    }

    /// The token of a raw id.
    pub fn from_raw(id: u64) -> (t: FdToken)
        ensures
            t.0 == id,
    {
        FdToken(id)
    }
}

/// One hook: its id, and its callback unless that is running.
pub struct Hook<C> {
    /// Its id.
    pub id: u64,
    /// Its callback.
    pub callback: Option<C>,
}

/// The hooks of an app.
pub struct Hooks<C> {
    list: Vec<Hook<C>>,
    next: u64,
}

/// The hooks without the one under an id.
pub open spec fn without<C>(s: Seq<Hook<C>>, id: u64) -> Seq<Hook<C>> {
    s.filter(|h: Hook<C>| h.id != id)
}

/// The ids of hooks, in order.
pub open spec fn hook_ids<C>(s: Seq<Hook<C>>) -> Seq<u64> {
    s.map_values(|h: Hook<C>| h.id)
}

/// Where the hook with an id is.
pub open spec fn hook_at<C>(s: Seq<Hook<C>>, id: u64) -> Option<int>
    decreases s.len(),
{
    if s.len() == 0 {
        None
    } else if s[0].id == id {
        Some(0)
    } else {
        match hook_at(s.drop_first(), id) {
            Some(i) => Some(i + 1),
            None => None,
        }
    }
}

proof fn lemma_hook_at<C>(s: Seq<Hook<C>>, id: u64, k: int)
    requires
        0 <= k <= s.len(),
        forall|i: int| 0 <= i < k ==> (#[trigger] s[i]).id != id,
    ensures
        k == s.len() ==> hook_at(s, id) is None,
        k < s.len() && s[k].id == id ==> hook_at(s, id) == Some(k),
    decreases s.len(),
{
    if k > 0 {
        assert(s[0].id != id);
        let rest = s.drop_first();
        assert forall|i: int| 0 <= i < k - 1 implies (#[trigger] rest[i]).id != id by {
            assert(rest[i] == s[i + 1]);
        }
        lemma_hook_at(rest, id, k - 1);
    }
}

impl<C> Hooks<C> {
    /// The hooks, oldest first.
    pub closed spec fn hooks(&self) -> Seq<Hook<C>> {
        self.list@
    }

    /// The next id to be handed out.
    pub closed spec fn next_id(&self) -> u64 {
        self.next
    }

    /// The invariant: every id was handed out, and to one hook only.
    pub open spec fn wf(&self) -> bool {
        &&& forall|i: int|
            0 <= i < self.hooks().len() ==> (#[trigger] self.hooks()[i]).id < self.next_id()
        &&& forall|i: int, j: int|
            0 <= i < j < self.hooks().len() ==> (#[trigger] self.hooks()[i]).id
                != (#[trigger] self.hooks()[j]).id
    }

    /// No hooks.
    pub fn new() -> (h: Hooks<C>)
        ensures
            h.wf(),
            h.hooks().len() == 0,
            h.next_id() == 1,
    {
        Hooks { list: Vec::new(), next: 1 }
    }

    /// Hang up a callback under an id that no hook ever had.
    pub fn add_fd(&mut self, callback: C) -> (token: FdToken)
        requires
            old(self).wf(),
            old(self).next_id() < u64::MAX,
        ensures
            final(self).wf(),
            token.0 == old(self).next_id(),
            final(self).next_id() == old(self).next_id() + 1,
            final(self).hooks() == old(self).hooks().push(
                Hook { id: token.0, callback: Some(callback) },
            ),
    {
        let id: u64 = self.next;
        self.next = self.next + 1;
        self.list.push(Hook { id, callback: Some(callback) });
        FdToken(id)
    }

    /// Drop a hook.
    pub fn remove_fd(&mut self, token: FdToken)
        requires
            old(self).wf(),
        ensures
            final(self).wf(),
            final(self).next_id() == old(self).next_id(),
            final(self).hooks() == without(old(self).hooks(), token.0),
    {
        let ghost all = self.list@;
        let at = self.find(token.0);
        match at {
            Some(i) => {
                let _hook = self.list.remove(i);
                proof {
                    lemma_filter_one(all, token.0, i as int);
                }
            },
            None => {
                proof {
                    lemma_filter_none(all, token.0);
                }
            },
        }
    }

    fn find(&self, id: u64) -> (at: Option<usize>)
        ensures
            match at {
                Some(i) => hook_at(self.hooks(), id) == Some(i as int) && i < self.hooks().len()
                    && self.hooks()[i as int].id == id,
                None => hook_at(self.hooks(), id) is None && forall|k: int|
                    0 <= k < self.hooks().len() ==> (#[trigger] self.hooks()[k]).id != id,
            },
    {
        let mut i: usize = 0;
        while i < self.list.len()
            invariant
                i <= self.list@.len(),
                forall|k: int| 0 <= k < i ==> (#[trigger] self.list@[k]).id != id,
            decreases self.list.len() - i,
        {
            if self.list[i].id == id {
                proof {
                    lemma_hook_at(self.list@, id, i as int);
                }
                return Some(i);
            }
            i += 1;
        }
        proof {
            lemma_hook_at(self.list@, id, i as int);
        }
        None
    }

    /// The ids of the hooks, oldest first.
    pub fn ids(&self) -> (out: Vec<u64>)
        ensures
            out@ == hook_ids(self.hooks()),
    {
        let mut out: Vec<u64> = Vec::new();
        let mut i: usize = 0;
        while i < self.list.len()
            invariant
                i <= self.list@.len(),
                out@.len() == i,
                forall|k: int| 0 <= k < i ==> out@[k] == (#[trigger] self.list@[k]).id,
            decreases self.list.len() - i,
        {
            out.push(self.list[i].id);
            i += 1;
        }
        assert(out@ =~= hook_ids(self.list@));
        out
    }

    /// Take a callback out to run it: none where the hook is gone, or its
    /// callback is running.
    pub fn take(&mut self, token: FdToken) -> (c: Option<C>)
        requires
            old(self).wf(),
        ensures
            final(self).wf(),
            final(self).next_id() == old(self).next_id(),
            match hook_at(old(self).hooks(), token.0) {
                Some(i) => c == old(self).hooks()[i].callback && final(self).hooks() == old(
                    self,
                ).hooks().update(i, Hook { id: token.0, callback: None }),
                None => c is None && final(self).hooks() == old(self).hooks(),
            },
    {
        match self.find(token.0) {
            Some(i) => {
                let mut hook = Hook { id: token.0, callback: None };
                std::mem::swap(&mut hook, &mut self.list[i]);
                hook.callback
            },
            None => None,
        }
    }

    /// Put a callback back after it ran; it is dropped where its hook went
    /// meanwhile.
    pub fn put_back(&mut self, token: FdToken, callback: C)
        requires
            old(self).wf(),
        ensures
            final(self).wf(),
            final(self).next_id() == old(self).next_id(),
            final(self).hooks() == (match hook_at(old(self).hooks(), token.0) {
                Some(i) => old(self).hooks().update(
                    i,
                    Hook { id: token.0, callback: Some(callback) },
                ),
                None => old(self).hooks(),
            }),
    {
        if let Some(i) = self.find(token.0) {
            self.list.set(i, Hook { id: token.0, callback: Some(callback) });
        }
    }
}

proof fn lemma_filter_none<C>(s: Seq<Hook<C>>, id: u64)
    requires
        forall|k: int| 0 <= k < s.len() ==> (#[trigger] s[k]).id != id,
    ensures
        without(s, id) == s,
    decreases s.len(),
{
    reveal(Seq::filter);
    if s.len() > 0 {
        let rest = s.drop_last();
        assert forall|k: int| 0 <= k < rest.len() implies (#[trigger] rest[k]).id != id by {
            assert(rest[k] == s[k]);
        }
        lemma_filter_none(rest, id);
        assert(s[s.len() - 1].id != id);
        assert(rest.push(s.last()) =~= s);
    }
}

proof fn lemma_filter_one<C>(s: Seq<Hook<C>>, id: u64, i: int)
    requires
        0 <= i < s.len(),
        s[i].id == id,
        forall|j: int, k: int|
            0 <= j < k < s.len() ==> (#[trigger] s[j]).id != (#[trigger] s[k]).id,
    ensures
        without(s, id) == s.remove(i),
    decreases s.len(),
{
    reveal(Seq::filter);
    let rest = s.drop_last();
    if i == s.len() - 1 {
        assert forall|k: int| 0 <= k < rest.len() implies (#[trigger] rest[k]).id != id by {
            assert(rest[k] == s[k]);
        }
        lemma_filter_none(rest, id);
        assert(s.remove(i) =~= rest);
    } else {
        assert forall|j: int, k: int| 0 <= j < k < rest.len() implies (#[trigger] rest[j]).id
            != (#[trigger] rest[k]).id by {
            assert(rest[j] == s[j] && rest[k] == s[k]);
        }
        lemma_filter_one(rest, id, i);
        assert(s[s.len() - 1].id != s[i].id);
        assert(s.remove(i) =~= rest.remove(i).push(s.last()));
    }
}

/// A token names one hook for good: no hook that is added later gets the id
/// of one that was there before, dropped or not.
pub proof fn tokens_are_never_reused<C>(before: &Hooks<C>, after: &Hooks<C>, i: int, fresh: FdToken)
    requires
        before.wf(),
        before.next_id() <= after.next_id(),
        fresh.0 == after.next_id(),
        0 <= i < before.hooks().len(),
    ensures
        before.hooks()[i].id != fresh.0,
{
}

// ---------------------------------------------------------------------
// timers
// ---------------------------------------------------------------------

/// A handle to a timer.
#[derive(Debug, Clone, Copy, PartialEq, Eq, Structural)]
pub struct TimerId(pub u64);

/// One timer: what is called when the time has come.
pub struct Timer<C> {
    /// Its id.
    pub id: u64,
    /// When it is due, in nanoseconds.
    pub deadline: u64,
    /// What is called.
    pub callback: C,
}

/// Nanoseconds in a millisecond.
pub const MILLISECOND: u64 = 1000000;

/// The timers of an app.
pub struct Timers<C> {
    list: Vec<Timer<C>>,
    next: u64,
}

/// The ids of the timers that are due at a time, in the order in which they
/// were set.
pub open spec fn due_ids<C>(s: Seq<Timer<C>>, now: int) -> Seq<u64>
    decreases s.len(),
{
    if s.len() == 0 {
        Seq::empty()
    } else if s.last().deadline <= now {
        due_ids(s.drop_last(), now).push(s.last().id)
    } else {
        due_ids(s.drop_last(), now)
    }
}

/// The earliest deadline.
pub open spec fn earliest<C>(s: Seq<Timer<C>>) -> Option<u64>
    decreases s.len(),
{
    if s.len() == 0 {
        None
    } else {
        match earliest(s.drop_last()) {
            Some(d) => Some(if s.last().deadline < d {
                s.last().deadline
            } else {
                d
            }),
            None => Some(s.last().deadline),
        }
    }
}

/// A timer brought closer by some time; one that would be due before time
/// began is due now.
pub open spec fn sooner(deadline: u64, step: u64, now: u64) -> u64 {
    if step <= deadline {
        (deadline - step) as u64
    } else {
        now
    }
}

/// The timers brought closer by some time.
pub open spec fn advanced<C>(s: Seq<Timer<C>>, step: u64, now: u64) -> Seq<Timer<C>> {
    s.map_values(|t: Timer<C>| Timer { deadline: sooner(t.deadline, step, now), ..t })
}

/// The timers without those under an id.
pub open spec fn timers_without<C>(s: Seq<Timer<C>>, id: u64) -> Seq<Timer<C>> {
    s.filter(|t: Timer<C>| t.id != id)
}

impl<C> Timers<C> {
    /// The timers, in the order in which they were set.
    pub closed spec fn timers(&self) -> Seq<Timer<C>> {
        self.list@
    }

    /// The next id to be handed out.
    pub closed spec fn next_id(&self) -> u64 {
        self.next
    }

    /// The invariant: every id was handed out, and to one timer only.
    pub open spec fn wf(&self) -> bool {
        &&& forall|i: int|
            0 <= i < self.timers().len() ==> (#[trigger] self.timers()[i]).id < self.next_id()
        &&& forall|i: int, j: int|
            0 <= i < j < self.timers().len() ==> (#[trigger] self.timers()[i]).id
                != (#[trigger] self.timers()[j]).id
    }

    /// No timers.
    pub fn new() -> (t: Timers<C>)
        ensures
            t.wf(),
            t.timers().len() == 0,
            t.next_id() == 1,
    {
        Timers { list: Vec::new(), next: 1 }
    }

    /// Have something called once, some milliseconds from now.
    pub fn set_timer(&mut self, now: u64, ms: u64, callback: C) -> (id: TimerId)
        requires
            old(self).wf(),
            old(self).next_id() < u64::MAX,
            now + ms * MILLISECOND <= u64::MAX,
        ensures
            final(self).wf(),
            id.0 == old(self).next_id(),
            final(self).next_id() == old(self).next_id() + 1,
            final(self).timers() == old(self).timers().push(
                Timer { id: id.0, deadline: (now + ms * MILLISECOND) as u64, callback },
            ),
    {
        let id: u64 = self.next;
        self.next = self.next + 1;
        let ghost before = self.list@;
        self.list.push(Timer { id, deadline: now + ms * MILLISECOND, callback });
        proof {
            let kept = old(self).timers();
            assert(kept == before);
            assert forall|i: int| 0 <= i < self.timers().len() implies (
            #[trigger] self.timers()[i]).id < self.next_id() by {
                if i < kept.len() {
                    assert(kept[i].id < old(self).next_id());
                }
            }
            assert forall|i: int, j: int| 0 <= i < j < self.timers().len() implies (
            #[trigger] self.timers()[i]).id != (#[trigger] self.timers()[j]).id by {
                assert(kept[i].id < old(self).next_id());
                if j < kept.len() {
                    assert(kept[i].id != kept[j].id);
                }
            }
        }
        TimerId(id)
    }

    fn find(&self, id: u64) -> (at: Option<usize>)
        ensures
            match at {
                Some(i) => i < self.timers().len() && self.timers()[i as int].id == id,
                None => forall|k: int|
                    0 <= k < self.timers().len() ==> (#[trigger] self.timers()[k]).id != id,
            },
    {
        let mut i: usize = 0;
        while i < self.list.len()
            invariant
                i <= self.list@.len(),
                forall|k: int| 0 <= k < i ==> (#[trigger] self.list@[k]).id != id,
            decreases self.list.len() - i,
        {
            if self.list[i].id == id {
                return Some(i);
            }
            i += 1;
        }
        None
    }

    /// Take a timer out to run it: none where it was cancelled meanwhile.
    pub fn take(&mut self, id: TimerId) -> (c: Option<C>)
        requires
            old(self).wf(),
        ensures
            final(self).wf(),
            final(self).next_id() == old(self).next_id(),
            final(self).timers() == timers_without(old(self).timers(), id.0),
            match c {
                Some(c) => exists|i: int|
                    0 <= i < old(self).timers().len() && (#[trigger] old(self).timers()[i]).id
                        == id.0 && old(self).timers()[i].callback == c,
                None => forall|i: int|
                    0 <= i < old(self).timers().len() ==> (#[trigger] old(self).timers()[i]).id
                        != id.0,
            },
    {
        let ghost all = self.list@;
        match self.find(id.0) {
            Some(i) => {
                let t = self.list.remove(i);
                proof {
                    lemma_timer_one(all, id.0, i as int);
                    assert(all[i as int].id == id.0);
                }
                Some(t.callback)
            },
            None => {
                proof {
                    lemma_timer_none(all, id.0);
                }
                None
            },
        }
    }

    /// Cancel a timer that has not fired.
    pub fn cancel_timer(&mut self, id: TimerId)
        requires
            old(self).wf(),
        ensures
            final(self).wf(),
            final(self).next_id() == old(self).next_id(),
            final(self).timers() == timers_without(old(self).timers(), id.0),
    {
        let _callback = self.take(id);
    }

    /// Milliseconds until the next timer, or none where there is none.
    pub fn next_timeout(&self, now: u64) -> (ms: Option<u64>)
        ensures
            ms == (match earliest(self.timers()) {
                Some(d) => Some(if d > now {
                    ((d - now) / MILLISECOND as int) as u64
                } else {
                    0
                }),
                None => None,
            }),
    {
        let mut first: Option<u64> = None;
        let mut i: usize = 0;
        while i < self.list.len()
            invariant
                i <= self.list@.len(),
                first == earliest(self.list@.take(i as int)),
            decreases self.list.len() - i,
        {
            let d: u64 = self.list[i].deadline;
            assert(self.list@.take(i + 1).drop_last() =~= self.list@.take(i as int));
            first = match first {
                Some(f) => Some(if d < f {
                    d
                } else {
                    f
                }),
                None => Some(d),
            };
            i += 1;
        }
        assert(self.list@.take(i as int) =~= self.list@);
        match first {
            Some(d) => Some(if d > now {
                (d - now) / MILLISECOND
            } else {
                0
            }),
            None => None,
        }
    }

    /// The timers that are due. A callback may cancel another of them, so
    /// each is taken out only when its turn comes.
    pub fn due(&self, now: u64) -> (out: Vec<TimerId>)
        ensures
            out@.map_values(|t: TimerId| t.0) == due_ids(self.timers(), now as int),
    {
        let mut out: Vec<TimerId> = Vec::new();
        let mut i: usize = 0;
        assert(out@.map_values(|t: TimerId| t.0) =~= Seq::<u64>::empty());
        while i < self.list.len()
            invariant
                i <= self.list@.len(),
                out@.map_values(|t: TimerId| t.0) == due_ids(self.list@.take(i as int), now as int),
            decreases self.list.len() - i,
        {
            assert(self.list@.take(i + 1).drop_last() =~= self.list@.take(i as int));
            if self.list[i].deadline <= now {
                let ghost before = out@.map_values(|t: TimerId| t.0);
                out.push(TimerId(self.list[i].id));
                assert(out@.map_values(|t: TimerId| t.0) =~= before.push(self.list@[i as int].id));
            }
            i += 1;
        }
        assert(self.list@.take(i as int) =~= self.list@);
        out
    }

    /// Bring every timer closer, as though that much time had passed.
    pub fn advance_timers(&mut self, step: u64, now: u64)
        requires
            old(self).wf(),
        ensures
            final(self).wf(),
            final(self).next_id() == old(self).next_id(),
            final(self).timers() == advanced(old(self).timers(), step, now),
    {
        let ghost all = self.list@;
        let mut i: usize = 0;
        while i < self.list.len()
            invariant
                i <= self.list@.len(),
                self.next == old(self).next_id(),
                self.list@.len() == all.len(),
                forall|k: int|
                    0 <= k < all.len() ==> #[trigger] self.list@[k] == (if k < i {
                        Timer { deadline: sooner(all[k].deadline, step, now), ..all[k] }
                    } else {
                        all[k]
                    }),
            decreases self.list.len() - i,
        {
            let d: u64 = self.list[i].deadline;
            let t: u64 = if step <= d {
                d - step
            } else {
                now
            };
            self.list[i].deadline = t;
            i += 1;
        }
        assert(self.list@ =~= advanced(all, step, now));
        proof {
            let kept = old(self).timers();
            assert(kept == all);
            assert forall|k: int| 0 <= k < self.timers().len() implies (
            #[trigger] self.timers()[k]).id < self.next_id() by {
                assert(kept[k].id < old(self).next_id());
            }
            assert forall|j: int, k: int| 0 <= j < k < self.timers().len() implies (
            #[trigger] self.timers()[j]).id != (#[trigger] self.timers()[k]).id by {
                assert(kept[j].id != kept[k].id);
            }
        }
    }
}

proof fn lemma_timer_none<C>(s: Seq<Timer<C>>, id: u64)
    requires
        forall|k: int| 0 <= k < s.len() ==> (#[trigger] s[k]).id != id,
    ensures
        timers_without(s, id) == s,
    decreases s.len(),
{
    reveal(Seq::filter);
    if s.len() > 0 {
        let rest = s.drop_last();
        assert forall|k: int| 0 <= k < rest.len() implies (#[trigger] rest[k]).id != id by {
            assert(rest[k] == s[k]);
        }
        lemma_timer_none(rest, id);
        assert(s[s.len() - 1].id != id);
        assert(rest.push(s.last()) =~= s);
    }
}

proof fn lemma_timer_one<C>(s: Seq<Timer<C>>, id: u64, i: int)
    requires
        0 <= i < s.len(),
        s[i].id == id,
        forall|j: int, k: int|
            0 <= j < k < s.len() ==> (#[trigger] s[j]).id != (#[trigger] s[k]).id,
    ensures
        timers_without(s, id) == s.remove(i),
    decreases s.len(),
{
    reveal(Seq::filter);
    let rest = s.drop_last();
    if i == s.len() - 1 {
        assert forall|k: int| 0 <= k < rest.len() implies (#[trigger] rest[k]).id != id by {
            assert(rest[k] == s[k]);
        }
        lemma_timer_none(rest, id);
        assert(s.remove(i) =~= rest);
    } else {
        assert forall|j: int, k: int| 0 <= j < k < rest.len() implies (#[trigger] rest[j]).id
            != (#[trigger] rest[k]).id by {
            assert(rest[j] == s[j] && rest[k] == s[k]);
        }
        lemma_timer_one(rest, id, i);
        assert(s[s.len() - 1].id != s[i].id);
        assert(s.remove(i) =~= rest.remove(i).push(s.last()));
    }
}

/// Advancing the timers makes exactly those due that waiting as long would
/// have, in the same order.
pub proof fn advancing_is_waiting<C>(s: Seq<Timer<C>>, step: u64, now: u64)
    ensures
        due_ids(advanced(s, step, now), now as int) == due_ids(s, now + step),
    decreases s.len(),
{
    if s.len() > 0 {
        let a = advanced(s, step, now);
        assert(a.drop_last() =~= advanced(s.drop_last(), step, now));
        advancing_is_waiting(s.drop_last(), step, now);
    }
}

/// The loop never sleeps past a timer: while none is due, the time until
/// the next is the time until the earliest of them.
pub proof fn nothing_is_due_before_the_earliest<C>(s: Seq<Timer<C>>, now: int)
    ensures
        due_ids(s, now).len() == 0 <==> (match earliest(s) {
            Some(d) => now < d,
            None => true,
        }),
    decreases s.len(),
{
    if s.len() > 0 {
        nothing_is_due_before_the_earliest(s.drop_last(), now);
    }
}

// ---------------------------------------------------------------------
// handlers
// ---------------------------------------------------------------------

/// Handlers that are never removed, oldest first; one that is running is out
/// of its place.
pub struct Handlers<C> {
    list: Vec<Option<C>>,
}

impl<C> Handlers<C> {
    /// The handlers.
    pub closed spec fn places(&self) -> Seq<Option<C>> {
        self.list@
    }

    /// No handlers.
    pub fn new() -> (h: Handlers<C>)
        ensures
            h.places().len() == 0,
    {
        Handlers { list: Vec::new() }
    }

    /// Register a handler.
    pub fn push(&mut self, handler: C)
        ensures
            final(self).places() == old(self).places().push(Some(handler)),
    {
        self.list.push(Some(handler));
    }

    /// How many handlers are registered.
    pub fn count(&self) -> (n: usize)
        ensures
            n == self.places().len(),
    {
        self.list.len()
    }

    /// Take a handler out to run it: none past the end, or where it is
    /// running.
    pub fn take(&mut self, i: usize) -> (h: Option<C>)
        ensures
            if i < old(self).places().len() {
                h == old(self).places()[i as int] && final(self).places() == old(
                    self,
                ).places().update(i as int, None)
            } else {
                h is None && final(self).places() == old(self).places()
            },
    {
        if i >= self.list.len() {
            return None;
        }
        let mut h: Option<C> = None;
        std::mem::swap(&mut h, &mut self.list[i]);
        h
    }

    /// Put a handler back after it ran.
    pub fn put_back(&mut self, i: usize, handler: C)
        ensures
            final(self).places() == (if i < old(self).places().len() {
                old(self).places().update(i as int, Some(handler))
            } else {
                old(self).places()
            }),
    {
        if i < self.list.len() {
            self.list.set(i, Some(handler));
        }
    }
}

/// Whether a key is a shortcut: the same key with the same modifiers held,
/// and no others.
pub fn is_shortcut(modifiers: u32, keycode: u32, k: &KeyEvent) -> (r: bool)
    ensures
        r == (k.keycode == keycode && k.mods & mods::MASK == modifiers & mods::MASK),
{
    k.keycode == keycode && k.mods & mods::MASK == modifiers & mods::MASK
}

// ---------------------------------------------------------------------
// what was put off
// ---------------------------------------------------------------------

/// How many times a queue that keeps refilling itself is drained before it
/// is given up.
pub const MAX_DEFER_ROUNDS: usize = 16;

/// Callbacks put off until the tree is whole again.
pub struct Deferred<C> {
    queue: Vec<C>,
}

/// What a round over the queue is about.
pub enum Round<C> {
    /// Nothing is left.
    Done,
    /// These are to be run, in order; what they put off is for the next
    /// round.
    Run(Vec<C>),
    /// The queue kept refilling itself; this many were dropped.
    Dropped(usize),
}

impl<C> Deferred<C> {
    /// The queue, oldest first.
    pub closed spec fn waiting(&self) -> Seq<C> {
        self.queue@
    }

    /// An empty queue.
    pub fn new() -> (d: Deferred<C>)
        ensures
            d.waiting().len() == 0,
    {
        Deferred { queue: Vec::new() }
    }

    /// Put a callback off.
    pub fn defer(&mut self, callback: C)
        ensures
            final(self).waiting() == old(self).waiting().push(callback),
    {
        self.queue.push(callback);
    }

    /// How many callbacks are waiting.
    pub fn deferred_count(&self) -> (n: usize)
        ensures
            n == self.waiting().len(),
    {
        self.queue.len()
    }

    /// What the next round is about, after some rounds were made. Whatever
    /// comes back, the queue is empty then.
    pub fn next_round(&mut self, made: usize) -> (r: Round<C>)
        ensures
            final(self).waiting().len() == 0,
            match r {
                Round::Done => old(self).waiting().len() == 0,
                Round::Run(batch) => made < MAX_DEFER_ROUNDS && old(self).waiting().len() > 0
                    && batch@ == old(self).waiting(),
                Round::Dropped(n) => made >= MAX_DEFER_ROUNDS && n == old(self).waiting().len()
                    && n > 0,
            },
    {
        let n: usize = self.queue.len();
        if n == 0 {
            return Round::Done;
        }
        let mut batch: Vec<C> = Vec::new();
        std::mem::swap(&mut batch, &mut self.queue);
        if made < MAX_DEFER_ROUNDS {
            Round::Run(batch)
        } else {
            Round::Dropped(n)
        }
    }
}

/// A frame callback: when the next picture is due.
#[derive(Debug, Clone, Copy, PartialEq, Eq, Structural)]
pub struct Frame {
    /// The deadline, in nanoseconds of the monotonic clock.
    pub deadline_ns: u64,
    /// How long a picture is shown, in nanoseconds.
    pub refresh_ns: u32,
}

// ---------------------------------------------------------------------
// laws
// ---------------------------------------------------------------------

/// A hook is found by its token where there is one, and it is the only one.
pub proof fn a_token_finds_its_hook<C>(h: &Hooks<C>, k: int, id: u64)
    requires
        h.wf(),
        0 <= k < h.hooks().len(),
    ensures
        hook_at(h.hooks(), h.hooks()[k].id) == Some(k),
        (forall|j: int| 0 <= j < h.hooks().len() ==> (#[trigger] h.hooks()[j]).id != id) ==> hook_at(
            h.hooks(),
            id,
        ) is None,
{
    let s = h.hooks();
    assert forall|j: int| 0 <= j < k implies (#[trigger] s[j]).id != s[k].id by {}
    lemma_hook_at(s, s[k].id, k);
    if forall|j: int| 0 <= j < s.len() ==> (#[trigger] s[j]).id != id {
        lemma_hook_at(s, id, s.len() as int);
    }
}

/// Removing by a token takes that hook and no other, and keeps the order.
pub proof fn removing_takes_one_hook<C>(s: Seq<Hook<C>>, x: Hook<C>, id: u64)
    ensures
        without(Seq::<Hook<C>>::empty(), id).len() == 0,
        x.id == id ==> without(s.push(x), id) == without(s, id),
        x.id != id ==> without(s.push(x), id) == without(s, id).push(x),
{
    reveal(Seq::filter);
    assert(s.push(x).drop_last() =~= s);
}

/// A timer is due exactly where its time has come, and what is due comes in
/// the order in which it was set.
pub proof fn a_timer_is_due_when_its_time_has_come<C>(s: Seq<Timer<C>>, t: Timer<C>, now: int)
    ensures
        due_ids(Seq::<Timer<C>>::empty(), now).len() == 0,
        t.deadline <= now ==> due_ids(s.push(t), now) == due_ids(s, now).push(t.id),
        t.deadline > now ==> due_ids(s.push(t), now) == due_ids(s, now),
{
    assert(s.push(t).drop_last() =~= s);
}

/// The earliest deadline is that of a timer, and none is earlier.
pub proof fn no_timer_is_earlier_than_the_earliest<C>(s: Seq<Timer<C>>, i: int)
    requires
        0 <= i < s.len(),
    ensures
        earliest(s) matches Some(d) && d <= s[i].deadline && exists|k: int|
            0 <= k < s.len() && (#[trigger] s[k]).deadline == d,
    decreases s.len(),
{
    let head = s.drop_last();
    let n = head.len() as int;
    assert(s[n] == s.last());
    if n > 0 {
        no_timer_is_earlier_than_the_earliest(head, if i < n {
            i
        } else {
            0
        });
        let d = earliest(head)->0;
        let k = choose|k: int| 0 <= k < head.len() && (#[trigger] head[k]).deadline == d;
        assert(s[k].deadline == d);
        if i < n {
            assert(head[i] == s[i]);
        }
    }
}

/// Cancelling takes that timer and no other.
pub proof fn cancelling_takes_one_timer<C>(s: Seq<Timer<C>>, t: Timer<C>, id: u64)
    ensures
        timers_without(Seq::<Timer<C>>::empty(), id).len() == 0,
        t.id == id ==> timers_without(s.push(t), id) == timers_without(s, id),
        t.id != id ==> timers_without(s.push(t), id) == timers_without(s, id).push(t),
{
    reveal(Seq::filter);
    assert(s.push(t).drop_last() =~= s);
}

/// Moving time on by a step brings every deadline that much closer, keeps
/// each timer and what it is for, and never makes one wait longer.
pub proof fn a_step_brings_deadlines_closer<C>(s: Seq<Timer<C>>, step: u64, now: u64, i: int)
    requires
        0 <= i < s.len(),
    ensures
        advanced(s, step, now).len() == s.len(),
        advanced(s, step, now)[i].id == s[i].id,
        advanced(s, step, now)[i].callback == s[i].callback,
        s[i].deadline >= step ==> advanced(s, step, now)[i].deadline == s[i].deadline - step,
        s[i].deadline < step ==> advanced(s, step, now)[i].deadline == now,
{
}

} // verus!
