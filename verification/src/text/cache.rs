//! The bounded cache of font file bytes.
//!
//! A file's bytes are read on first use and kept until the cap or a frame
//! without use says otherwise. Whoever holds a file's bytes keeps them
//! alive, so that dropping a file from the cache pulls nothing out from
//! under a shaper.

use std::sync::Arc;

use vstd::prelude::*;

verus! {

/// How many frame stamps a file may go untouched before a sweep drops it.
pub const IDLE_FRAMES: u64 = 1;

/// One cached file: its bytes, and the frame it was last handed out in.
pub struct CacheEntry {
    /// Which file.
    pub file: u32,
    /// Its bytes.
    pub bytes: Arc<Vec<u8>>,
    /// The frame it was last handed out in.
    pub last_used: u64,
}

/// What a [`CacheEntry`] holds, as mathematical values.
pub struct EntryView {
    /// Which file.
    pub file: u32,
    /// Its bytes.
    pub bytes: Seq<u8>,
    /// The frame it was last handed out in.
    pub last_used: u64,
}

impl View for CacheEntry {
    type V = EntryView;

    open spec fn view(&self) -> EntryView {
        EntryView { file: self.file, bytes: self.bytes@, last_used: self.last_used }
    }
}

/// What a run of entries holds.
pub open spec fn entries_view(s: Seq<CacheEntry>) -> Seq<EntryView> {
    s.map_values(|e: CacheEntry| e@)
}

/// The bounded cache of font file bytes.
pub struct Cache {
    entries: Vec<CacheEntry>,
    bytes: usize,
    limit: usize,
    frame: u64,
    loads: u64,
    evictions: u64,
    releases: u64,
}

/// What a [`Cache`] holds, as mathematical values.
pub struct CacheView {
    /// The cached files, oldest arrival first.
    pub entries: Seq<EntryView>,
    /// How many bytes may stay.
    pub limit: usize,
    /// The current frame stamp.
    pub frame: u64,
    /// How many files were read.
    pub loads: u64,
    /// How many files the cap dropped.
    pub evictions: u64,
    /// How many files went idle.
    pub releases: u64,
}

impl View for Cache {
    type V = CacheView;

    closed spec fn view(&self) -> CacheView {
        CacheView {
            entries: entries_view(self.entries@),
            limit: self.limit,
            frame: self.frame,
            loads: self.loads,
            evictions: self.evictions,
            releases: self.releases,
        }
    }
}

/// The bytes of all files together.
pub open spec fn total(s: Seq<EntryView>) -> nat
    decreases s.len(),
{
    if s.len() == 0 {
        0
    } else {
        total(s.drop_last()) + s.last().bytes.len()
    }
}

/// No file is cached twice.
pub open spec fn distinct(s: Seq<EntryView>) -> bool {
    forall|i: int, j: int|
        0 <= i < j < s.len() ==> (#[trigger] s[i]).file != (#[trigger] s[j]).file
}

/// Whether one file goes before another: the one that was used longer ago,
/// and the lower number among equals.
pub open spec fn older(a: EntryView, b: EntryView) -> bool {
    a.last_used < b.last_used || (a.last_used == b.last_used && a.file < b.file)
}

/// The file that goes first, if any may go.
pub open spec fn oldest(s: Seq<EntryView>, spare: Option<u32>) -> Option<int>
    decreases s.len(),
{
    if s.len() == 0 {
        None
    } else {
        let n = s.len() - 1;
        let before = oldest(s.drop_last(), spare);
        if spare == Some(s[n].file) {
            before
        } else {
            match before {
                None => Some(n),
                Some(i) => if older(s[n], s[i]) {
                    Some(n)
                } else {
                    Some(i)
                },
            }
        }
    }
}

pub proof fn lemma_oldest(s: Seq<EntryView>, spare: Option<u32>)
    ensures
        match oldest(s, spare) {
            Some(i) => {
                &&& 0 <= i < s.len()
                &&& spare != Some(s[i].file)
                &&& forall|k: int|
                    0 <= k < s.len() && spare != Some((#[trigger] s[k]).file) ==> !older(s[k], s[i])
            },
            None => forall|k: int| 0 <= k < s.len() ==> spare == Some((#[trigger] s[k]).file),
        },
    decreases s.len(),
{
    if s.len() > 0 {
        let head = s.drop_last();
        lemma_oldest(head, spare);
        assert forall|k: int| 0 <= k < head.len() implies s[k] == head[k] by {}
    }
}

/// What stays once the oldest files went until the cap is met. The spared
/// file stays whatever the cap says.
pub open spec fn trimmed(s: Seq<EntryView>, limit: nat, spare: Option<u32>) -> Seq<EntryView>
    decreases s.len(),
{
    if total(s) <= limit {
        s
    } else {
        match oldest(s, spare) {
            Some(i) => {
                proof {
                    lemma_oldest(s, spare);
                }
                trimmed(s.remove(i), limit, spare)
            },
            None => s,
        }
    }
}

/// Whether a file was used in this frame or less than the idle time ago.
pub open spec fn fresh(e: EntryView, frame: u64) -> bool {
    frame - e.last_used < IDLE_FRAMES
}

/// The files that are not idle.
pub open spec fn kept_fresh(s: Seq<EntryView>, frame: u64) -> Seq<EntryView>
    decreases s.len(),
{
    if s.len() == 0 {
        Seq::empty()
    } else if fresh(s.last(), frame) {
        kept_fresh(s.drop_last(), frame).push(s.last())
    } else {
        kept_fresh(s.drop_last(), frame)
    }
}

/// Where a file is in the cache.
pub open spec fn slot_of(s: Seq<EntryView>, file: u32) -> Option<int>
    decreases s.len(),
{
    if s.len() == 0 {
        None
    } else if s.last().file == file {
        Some(s.len() - 1)
    } else {
        slot_of(s.drop_last(), file)
    }
}

pub proof fn lemma_slot(s: Seq<EntryView>, file: u32)
    ensures
        match slot_of(s, file) {
            Some(i) => 0 <= i < s.len() && s[i].file == file,
            None => forall|k: int| 0 <= k < s.len() ==> (#[trigger] s[k]).file != file,
        },
    decreases s.len(),
{
    if s.len() > 0 {
        let head = s.drop_last();
        lemma_slot(head, file);
        assert forall|k: int| 0 <= k < head.len() implies s[k] == head[k] by {}
    }
}

pub proof fn lemma_total_remove(s: Seq<EntryView>, i: int)
    requires
        0 <= i < s.len(),
    ensures
        total(s) == total(s.remove(i)) + s[i].bytes.len(),
    decreases s.len(),
{
    let n = s.len() - 1;
    if i < n {
        let head = s.drop_last();
        lemma_total_remove(head, i);
        assert(s.remove(i).drop_last() =~= head.remove(i));
        assert(s.remove(i).last() == s.last());
    } else {
        assert(s.remove(i) =~= s.drop_last());
    }
}

proof fn lemma_total_same(a: Seq<EntryView>, b: Seq<EntryView>)
    requires
        a.len() == b.len(),
        forall|k: int| 0 <= k < a.len() ==> (#[trigger] a[k]).bytes == b[k].bytes,
    ensures
        total(a) == total(b),
    decreases a.len(),
{
    if a.len() > 0 {
        let x = a.drop_last();
        let y = b.drop_last();
        assert forall|k: int| 0 <= k < x.len() implies (#[trigger] x[k]).bytes == y[k].bytes by {
            assert(x[k] == a[k] && y[k] == b[k]);
        }
        lemma_total_same(x, y);
        assert(a[a.len() - 1].bytes == b[b.len() - 1].bytes);
    }
}

/// Whatever the trim drops was used longer ago than whatever it keeps, but
/// for the spared file.
pub proof fn the_oldest_go_first(
    s: Seq<EntryView>,
    limit: nat,
    spare: Option<u32>,
    gone: EntryView,
    stays: EntryView,
)
    requires
        distinct(s),
        s.contains(gone),
        !trimmed(s, limit, spare).contains(gone),
        trimmed(s, limit, spare).contains(stays),
        spare != Some(stays.file),
    ensures
        older(gone, stays),
    decreases s.len(),
{
    lemma_oldest(s, spare);
    if total(s) > limit && oldest(s, spare) is Some {
        let i = oldest(s, spare)->0;
        let rest = s.remove(i);
        lemma_trimmed_part(rest, limit, spare);
        let k = choose|k: int| 0 <= k < rest.len() && rest[k] == stays;
        let at = if k < i {
            k
        } else {
            k + 1
        };
        assert(s[at] == stays);
        if s[i] == gone {
            assert(!older(s[at], s[i]));
            assert(s[at].file != s[i].file) by {
                if at < i {
                    assert(s[at].file != s[i].file);
                } else {
                    assert(s[i].file != s[at].file);
                }
            }
        } else {
            let j = choose|j: int| 0 <= j < s.len() && s[j] == gone;
            let to = if j < i {
                j
            } else {
                j - 1
            };
            assert(rest[to] == gone);
            assert(distinct(rest)) by {
                assert forall|a: int, b: int| 0 <= a < b < rest.len() implies (
                #[trigger] rest[a]).file != (#[trigger] rest[b]).file by {
                    let x = if a < i {
                        a
                    } else {
                        a + 1
                    };
                    let y = if b < i {
                        b
                    } else {
                        b + 1
                    };
                    assert(s[x] == rest[a] && s[y] == rest[b]);
                }
            }
            the_oldest_go_first(rest, limit, spare, gone, stays);
        }
    }
}

/// What a trim keeps was there before.
pub proof fn lemma_trimmed_part(s: Seq<EntryView>, limit: nat, spare: Option<u32>)
    ensures
        forall|e: EntryView| #[trigger] trimmed(s, limit, spare).contains(e) ==> s.contains(e),
        trimmed(s, limit, spare).len() <= s.len(),
        distinct(s) ==> distinct(trimmed(s, limit, spare)),
    decreases s.len(),
{
    lemma_oldest(s, spare);
    if total(s) > limit && oldest(s, spare) is Some {
        let i = oldest(s, spare)->0;
        let rest = s.remove(i);
        lemma_trimmed_part(rest, limit, spare);
        assert forall|e: EntryView| #[trigger] trimmed(s, limit, spare).contains(e) implies s.contains(
            e,
        ) by {
            assert(rest.contains(e));
            let k = choose|k: int| 0 <= k < rest.len() && rest[k] == e;
            let at = if k < i {
                k
            } else {
                k + 1
            };
            assert(s[at] == e);
        }
        if distinct(s) {
            assert forall|a: int, b: int| 0 <= a < b < rest.len() implies (#[trigger] rest[a]).file
                != (#[trigger] rest[b]).file by {
                let x = if a < i {
                    a
                } else {
                    a + 1
                };
                let y = if b < i {
                    b
                } else {
                    b + 1
                };
                assert(s[x] == rest[a] && s[y] == rest[b]);
            }
        }
    }
}

/// The trim meets the cap, or nothing but the spared file is left.
pub proof fn the_trim_meets_the_cap(s: Seq<EntryView>, limit: nat, spare: Option<u32>)
    ensures
        total(trimmed(s, limit, spare)) <= limit || forall|k: int|
            0 <= k < trimmed(s, limit, spare).len() ==> spare == Some(
                (#[trigger] trimmed(s, limit, spare)[k]).file,
            ),
    decreases s.len(),
{
    lemma_oldest(s, spare);
    if total(s) > limit && oldest(s, spare) is Some {
        let rest = s.remove(oldest(s, spare)->0);
        the_trim_meets_the_cap(rest, limit, spare);
        let out = trimmed(rest, limit, spare);
        assert(trimmed(s, limit, spare) == out);
        if total(out) > limit {
            assert forall|k: int| 0 <= k < out.len() implies spare == Some(
                (#[trigger] out[k]).file,
            ) by {}
        }
    }
}

/// The spared file stays.
pub proof fn the_newcomer_stays(s: Seq<EntryView>, limit: nat, e: EntryView)
    requires
        s.contains(e),
    ensures
        trimmed(s, limit, Some(e.file)).contains(e),
    decreases s.len(),
{
    let spare = Some(e.file);
    lemma_oldest(s, spare);
    if total(s) > limit && oldest(s, spare) is Some {
        let i = oldest(s, spare)->0;
        let rest = s.remove(i);
        let j = choose|j: int| 0 <= j < s.len() && s[j] == e;
        assert(j != i);
        let to = if j < i {
            j
        } else {
            j - 1
        };
        assert(rest[to] == e);
        the_newcomer_stays(rest, limit, e);
    }
}

pub proof fn lemma_fresh_part(s: Seq<EntryView>, frame: u64)
    ensures
        kept_fresh(s, frame).len() <= s.len(),
        total(kept_fresh(s, frame)) <= total(s),
        forall|k: int|
            0 <= k < kept_fresh(s, frame).len() ==> s.contains(
                #[trigger] kept_fresh(s, frame)[k],
            ),
        distinct(s) ==> distinct(kept_fresh(s, frame)),
    decreases s.len(),
{
    if s.len() > 0 {
        let head = s.drop_last();
        let out = kept_fresh(s, frame);
        let mid = kept_fresh(head, frame);
        lemma_fresh_part(head, frame);
        assert forall|k: int| 0 <= k < head.len() implies s[k] == head[k] by {}
        if fresh(s.last(), frame) {
            assert(out.drop_last() =~= mid);
        }
        assert forall|k: int| 0 <= k < out.len() implies s.contains(#[trigger] out[k]) by {
            if k < mid.len() {
                assert(out[k] == mid[k]);
                let j = choose|j: int| 0 <= j < head.len() && head[j] == mid[k];
                assert(s[j] == mid[k]);
            } else {
                assert(s[s.len() - 1] == out[k]);
            }
        }
        if distinct(s) {
            assert(distinct(head)) by {
                assert forall|a: int, b: int| 0 <= a < b < head.len() implies (
                #[trigger] head[a]).file != (#[trigger] head[b]).file by {
                    assert(s[a] == head[a] && s[b] == head[b]);
                }
            }
            assert forall|a: int, b: int| 0 <= a < b < out.len() implies (#[trigger] out[a]).file
                != (#[trigger] out[b]).file by {
                assert(out[a] == mid[a]);
                if b < mid.len() {
                    assert(out[b] == mid[b]);
                } else {
                    let j = choose|j: int| 0 <= j < head.len() && head[j] == mid[a];
                    assert(s[j] == mid[a]);
                    assert(s[j].file != s[s.len() - 1].file);
                }
            }
        }
    }
}

/// The cache in the next frame.
pub open spec fn framed(c: CacheView) -> CacheView {
    CacheView { frame: (c.frame + 1) as u64, ..c }
}

/// The cache after a file was asked for, which counts as a use of one that
/// is there.
pub open spec fn touched(c: CacheView, file: u32) -> CacheView {
    match slot_of(c.entries, file) {
        Some(i) => CacheView {
            entries: c.entries.update(i, EntryView { last_used: c.frame, ..c.entries[i] }),
            ..c
        },
        None => c,
    }
}

/// The cache after a file that was just read was taken in, and room made
/// for it.
pub open spec fn taken_in(c: CacheView, file: u32, bytes: Seq<u8>) -> CacheView {
    let all = c.entries.push(EntryView { file, bytes, last_used: c.frame });
    let kept = trimmed(all, c.limit as nat, Some(file));
    CacheView {
        entries: kept,
        loads: (c.loads + 1) as u64,
        evictions: (c.evictions + (all.len() - kept.len())) as u64,
        ..c
    }
}

/// The cache after it was trimmed to its cap.
pub open spec fn trimmed_to_cap(c: CacheView, spare: Option<u32>) -> CacheView {
    let kept = trimmed(c.entries, c.limit as nat, spare);
    CacheView {
        entries: kept,
        evictions: (c.evictions + (c.entries.len() - kept.len())) as u64,
        ..c
    }
}

/// The cache after the idle files were released.
pub open spec fn swept(c: CacheView) -> CacheView {
    let kept = kept_fresh(c.entries, c.frame);
    CacheView {
        entries: kept,
        releases: (c.releases + (c.entries.len() - kept.len())) as u64,
        ..c
    }
}

/// What holds of every cache: no file is there twice, none was used later
/// than now, and every file that was read is there, was evicted or was
/// released.
pub open spec fn sane(c: CacheView) -> bool {
    &&& distinct(c.entries)
    &&& forall|k: int| 0 <= k < c.entries.len() ==> (#[trigger] c.entries[k]).last_used <= c.frame
    &&& c.loads == c.evictions + c.releases + c.entries.len()
}

/// Whether the files fit the cap, or are one file.
pub open spec fn within_cap(c: CacheView) -> bool {
    total(c.entries) <= c.limit || c.entries.len() == 1
}

pub proof fn lemma_touched(c: CacheView, file: u32)
    requires
        sane(c),
    ensures
        sane(touched(c, file)),
        total(touched(c, file).entries) == total(c.entries),
        touched(c, file).entries.len() == c.entries.len(),
{
    lemma_slot(c.entries, file);
    lemma_total_same(touched(c, file).entries, c.entries);
}

pub proof fn lemma_taken_in(c: CacheView, file: u32, bytes: Seq<u8>)
    requires
        sane(c),
        slot_of(c.entries, file) is None,
        c.loads < u64::MAX,
    ensures
        sane(taken_in(c, file, bytes)),
        within_cap(taken_in(c, file, bytes)),
        total(taken_in(c, file, bytes).entries) <= c.limit || taken_in(
            c,
            file,
            bytes,
        ).entries[0].file == file,
{
    let all = c.entries.push(EntryView { file, bytes, last_used: c.frame });
    let kept = taken_in(c, file, bytes).entries;
    lemma_slot(c.entries, file);
    lemma_trimmed_part(all, c.limit as nat, Some(file));
    the_trim_meets_the_cap(all, c.limit as nat, Some(file));
    the_newcomer_stays(all, c.limit as nat, all.last());
    assert(all.contains(all[all.len() - 1]));
    assert forall|k: int| 0 <= k < kept.len() implies (#[trigger] kept[k]).last_used <= c.frame by {
        assert(kept.contains(kept[k]));
        assert(all.contains(kept[k]));
    }
    if total(kept) > c.limit {
        if kept.len() > 1 {
            assert(kept[0].file == kept[1].file);
        }
        assert(kept.len() > 0);
    }
}

pub proof fn lemma_trimmed_to_cap(c: CacheView)
    requires
        sane(c),
    ensures
        sane(trimmed_to_cap(c, None)),
        total(trimmed_to_cap(c, None).entries) <= c.limit,
{
    let kept = trimmed_to_cap(c, None).entries;
    lemma_trimmed_part(c.entries, c.limit as nat, None);
    the_trim_meets_the_cap(c.entries, c.limit as nat, None);
    assert forall|k: int| 0 <= k < kept.len() implies (#[trigger] kept[k]).last_used <= c.frame by {
        assert(kept.contains(kept[k]));
        assert(c.entries.contains(kept[k]));
    }
    if kept.len() > 0 && total(kept) > c.limit {
        assert(Some(kept[0].file) == None::<u32>);
    }
}

pub proof fn lemma_swept(c: CacheView)
    requires
        sane(c),
    ensures
        sane(swept(c)),
        swept(c).entries.len() <= c.entries.len(),
        total(swept(c).entries) <= total(c.entries),
{
    let kept = swept(c).entries;
    lemma_fresh_part(c.entries, c.frame);
    assert forall|k: int| 0 <= k < kept.len() implies (#[trigger] kept[k]).last_used <= c.frame by {
        assert(c.entries.contains(kept[k]));
    }
}

/// A sweep keeps every file that was used in this frame.
pub proof fn what_is_in_use_is_kept(s: Seq<EntryView>, frame: u64, e: EntryView)
    requires
        s.contains(e),
        e.last_used == frame,
    ensures
        kept_fresh(s, frame).contains(e),
    decreases s.len(),
{
    let n = s.len() - 1;
    let out = kept_fresh(s, frame);
    let j = choose|j: int| 0 <= j < s.len() && s[j] == e;
    if j == n {
        assert(out.last() == e);
        assert(out[out.len() - 1] == e);
    } else {
        let head = s.drop_last();
        assert(head[j] == e);
        what_is_in_use_is_kept(head, frame, e);
        let mid = kept_fresh(head, frame);
        let k = choose|k: int| 0 <= k < mid.len() && mid[k] == e;
        assert(out[k] == e);
    }
}

/// A sweep drops every file that was not used in this frame.
pub proof fn what_went_idle_is_dropped(s: Seq<EntryView>, frame: u64)
    requires
        forall|k: int| 0 <= k < s.len() ==> (#[trigger] s[k]).last_used < frame,
    ensures
        kept_fresh(s, frame).len() == 0,
    decreases s.len(),
{
    if s.len() > 0 {
        assert(s[s.len() - 1].last_used < frame);
        assert forall|k: int| 0 <= k < s.drop_last().len() implies (
        #[trigger] s.drop_last()[k]).last_used < frame by {
            assert(s[k] == s.drop_last()[k]);
        }
        what_went_idle_is_dropped(s.drop_last(), frame);
    }
}

impl Cache {
    /// The invariant: the bytes are counted, and what holds of every cache
    /// does.
    pub closed spec fn wf(&self) -> bool {
        &&& self.bytes == total(self@.entries)
        &&& sane(self@)
    }

    /// What the invariant says of the counters.
    pub proof fn every_load_is_accounted_for(&self)
        requires
            self.wf(),
        ensures
            sane(self@),
    {
    }

    /// An empty cache that keeps at most `limit` bytes.
    pub fn new(limit: usize) -> (c: Cache)
        ensures
            c.wf(),
            c@ == (CacheView {
                entries: Seq::empty(),
                limit,
                frame: 0,
                loads: 0,
                evictions: 0,
                releases: 0,
            }),
    {
        let c = Cache {
            entries: Vec::new(),
            bytes: 0,
            limit,
            frame: 0,
            loads: 0,
            evictions: 0,
            releases: 0,
        };
        assert(c@.entries =~= Seq::<EntryView>::empty());
        c
    }

    /// How many files are there.
    pub fn len(&self) -> (n: usize)
        ensures
            n == self@.entries.len(),
    {
        self.entries.len()
    }

    /// How many bytes are there.
    pub fn bytes(&self) -> (n: usize)
        requires
            self.wf(),
        ensures
            n == total(self@.entries),
    {
        self.bytes
    }

    /// How many bytes may stay.
    pub fn limit(&self) -> (n: usize)
        ensures
            n == self@.limit,
    {
        self.limit
    }

    /// How many files were read.
    pub fn loads(&self) -> (n: u64)
        ensures
            n == self@.loads,
    {
        self.loads
    }

    /// How many files the cap dropped.
    pub fn evictions(&self) -> (n: u64)
        ensures
            n == self@.evictions,
    {
        self.evictions
    }

    /// How many files went idle.
    pub fn releases(&self) -> (n: u64)
        ensures
            n == self@.releases,
    {
        self.releases
    }

    /// Whether a file is there.
    pub fn contains(&self, file: u32) -> (r: bool)
        ensures
            r == (slot_of(self@.entries, file) is Some),
    {
        self.find(file).is_some()
    }

    fn find(&self, file: u32) -> (r: Option<usize>)
        ensures
            match r {
                Some(i) => slot_of(self@.entries, file) == Some(i as int) && i < self.entries@.len(),
                None => slot_of(self@.entries, file) is None,
            },
    {
        let ghost all = self@.entries;
        let mut i: usize = self.entries.len();
        assert(all.take(i as int) =~= all);
        while i > 0
            invariant
                i <= self.entries@.len(),
                all == self@.entries,
                slot_of(all, file) == slot_of(all.take(i as int), file),
            decreases i,
        {
            assert(all.take(i as int).last() == self.entries@[i - 1]@);
            assert(all.take(i as int).drop_last() =~= all.take(i - 1));
            if self.entries[i - 1].file == file {
                return Some(i - 1);
            }
            i -= 1;
        }
        None
    }

    /// Bump the frame stamp. This drops nothing.
    pub fn next_frame(&mut self)
        requires
            old(self).wf(),
            old(self)@.frame < u64::MAX,
        ensures
            final(self).wf(),
            final(self)@ == framed(old(self)@),
    {
        self.frame = self.frame + 1;
    }

    /// Set the cap without dropping anything.
    pub fn set_limit(&mut self, limit: usize)
        requires
            old(self).wf(),
        ensures
            final(self).wf(),
            final(self)@ == (CacheView { limit, ..old(self)@ }),
    {
        self.limit = limit;
    }

    /// The bytes of a file that is there, which counts as a use of it.
    pub fn touch(&mut self, file: u32) -> (r: Option<Arc<Vec<u8>>>)
        requires
            old(self).wf(),
        ensures
            final(self).wf(),
            match slot_of(old(self)@.entries, file) {
                Some(i) => r is Some && r->0@ == old(self)@.entries[i].bytes,
                None => r is None,
            },
            final(self)@ == touched(old(self)@, file),
    {
        proof {
            lemma_touched(self@, file);
        }
        match self.find(file) {
            Some(i) => {
                let ghost before = self@.entries;
                let frame = self.frame;
                let entry = &mut self.entries[i];
                entry.last_used = frame;
                let out = Arc::clone(&entry.bytes);
                proof {
                    let e = before[i as int];
                    assert(self@.entries =~= before.update(
                        i as int,
                        EntryView { last_used: frame, ..e },
                    ));
                    lemma_total_same(self@.entries, before);
                }
                Some(out)
            },
            None => None,
        }
    }

    /// Keep the bytes that were just read for a file that is not there, and
    /// make room for them: the file itself is spared.
    pub fn keep(&mut self, file: u32, bytes: Arc<Vec<u8>>)
        requires
            old(self).wf(),
            slot_of(old(self)@.entries, file) is None,
            old(self)@.loads < u64::MAX,
            total(old(self)@.entries) + bytes@.len() <= usize::MAX,
        ensures
            final(self).wf(),
            final(self)@ == taken_in(old(self)@, file, bytes@),
    {
        let ghost before = self@.entries;
        proof {
            lemma_slot(before, file);
        }
        self.loads = self.loads + 1;
        self.bytes = self.bytes + bytes.len();
        let last_used = self.frame;
        self.entries.push(CacheEntry { file, bytes, last_used });
        proof {
            let e = EntryView { file, bytes: bytes@, last_used };
            assert(self@.entries =~= before.push(e));
            assert(self@.entries.drop_last() =~= before);
            assert(distinct(self@.entries));
        }
        self.trim(Some(file));
    }

    /// Drop the least recently used files until the cap is met, but for the
    /// spared one.
    pub fn trim(&mut self, spare: Option<u32>)
        requires
            old(self).wf(),
        ensures
            final(self).wf(),
            final(self)@ == trimmed_to_cap(old(self)@, spare),
    {
        let ghost start = self@.entries;
        let ghost want = trimmed(start, self.limit as nat, spare);
        proof {
            lemma_trimmed_part(start, self.limit as nat, spare);
        }
        while self.bytes > self.limit
            invariant_except_break
                self.wf(),
                trimmed(self@.entries, self.limit as nat, spare) == want,
                self.evictions + self.entries@.len() == old(self)@.evictions + start.len(),
                self@ == (CacheView {
                    entries: self@.entries,
                    evictions: self.evictions,
                    ..old(self)@
                }),
            ensures
                self.wf(),
                self@.entries == want,
                self.evictions + self.entries@.len() == old(self)@.evictions + start.len(),
                self@ == (CacheView {
                    entries: self@.entries,
                    evictions: self.evictions,
                    ..old(self)@
                }),
            decreases self.entries@.len(),
        {
            match self.first_to_go(spare) {
                Some(i) => {
                    let ghost before = self@.entries;
                    proof {
                        lemma_total_remove(before, i as int);
                    }
                    let e = self.entries.remove(i);
                    self.bytes = self.bytes - e.bytes.len();
                    self.evictions = self.evictions + 1;
                    proof {
                        assert(self@.entries =~= before.remove(i as int));
                        assert(distinct(self@.entries)) by {
                            let rest = self@.entries;
                            assert forall|a: int, b: int| 0 <= a < b < rest.len() implies (
                            #[trigger] rest[a]).file != (#[trigger] rest[b]).file by {
                                let x = if a < i {
                                    a
                                } else {
                                    a + 1
                                };
                                let y = if b < i {
                                    b
                                } else {
                                    b + 1
                                };
                                assert(before[x] == rest[a] && before[y] == rest[b]);
                            }
                        }
                    }
                },
                None => {
                    break;
                },
            }
        }
    }

    fn first_to_go(&self, spare: Option<u32>) -> (r: Option<usize>)
        ensures
            match r {
                Some(i) => oldest(self@.entries, spare) == Some(i as int) && i < self.entries@.len(),
                None => oldest(self@.entries, spare) is None,
            },
    {
        let ghost all = self@.entries;
        let mut best: Option<usize> = None;
        let mut i: usize = 0;
        assert(all.take(0) =~= Seq::<EntryView>::empty());
        while i < self.entries.len()
            invariant
                i <= self.entries@.len(),
                all == self@.entries,
                match best {
                    Some(b) => oldest(all.take(i as int), spare) == Some(b as int) && b < i,
                    None => oldest(all.take(i as int), spare) is None,
                },
            decreases self.entries@.len() - i,
        {
            let e = &self.entries[i];
            proof {
                assert(all.take(i + 1).drop_last() =~= all.take(i as int));
                assert(all.take(i + 1)[i as int] == e@);
            }
            let may_go = match spare {
                Some(f) => f != e.file,
                None => true,
            };
            if may_go {
                match best {
                    None => {
                        best = Some(i);
                    },
                    Some(b) => {
                        let c = &self.entries[b];
                        assert(all.take(i + 1)[b as int] == c@);
                        if e.last_used < c.last_used || (e.last_used == c.last_used && e.file
                            < c.file) {
                            best = Some(i);
                        }
                    },
                }
            }
            i += 1;
        }
        assert(all.take(i as int) =~= all);
        best
    }

    /// Drop every file that went untouched for the idle time, whatever the
    /// cap says.
    pub fn sweep_idle(&mut self)
        requires
            old(self).wf(),
        ensures
            final(self).wf(),
            final(self)@ == swept(old(self)@),
    {
        let ghost start = self.entries@;
        let ghost all = self@.entries;
        let frame = self.frame;
        let mut queue: Vec<CacheEntry> = Vec::new();
        std::mem::swap(&mut queue, &mut self.entries);
        let n: usize = queue.len();
        let mut kept: Vec<CacheEntry> = Vec::new();
        let mut bytes: usize = 0;
        let mut freed: u64 = 0;
        let mut i: usize = 0;
        assert(all.take(0) =~= Seq::<EntryView>::empty());
        assert(entries_view(kept@) =~= Seq::<EntryView>::empty());
        proof {
            lemma_fresh_part(all, frame);
        }
        while queue.len() > 0
            invariant
                i + queue@.len() == n,
                n == start.len(),
                all == entries_view(start),
                queue@ == start.skip(i as int),
                total(all) <= usize::MAX,
                bytes == total(entries_view(kept@)),
                freed + kept@.len() == i,
                entries_view(kept@) == kept_fresh(all.take(i as int), frame),
            decreases queue@.len(),
        {
            let ghost before = entries_view(kept@);
            let e = queue.remove(0);
            proof {
                assert(e == start[i as int]);
                assert(queue@ =~= start.skip(i + 1));
                let head = all.take(i + 1);
                assert(head.drop_last() =~= all.take(i as int));
                assert(head.last() == e@);
                lemma_fresh_part(head, frame);
                lemma_total_take(all, i + 1);
            }
            let idle = if frame >= e.last_used {
                frame - e.last_used >= IDLE_FRAMES
            } else {
                false
            };
            if idle {
                freed += 1;
            } else {
                proof {
                    let out = before.push(e@);
                    assert(out.drop_last() =~= before);
                    assert(total(out) == total(before) + e.bytes@.len());
                    assert(kept_fresh(all.take(i + 1), frame) == out);
                }
                bytes = bytes + e.bytes.len();
                kept.push(e);
                assert(entries_view(kept@) =~= before.push(e@));
            }
            i += 1;
        }
        assert(all.take(i as int) =~= all);
        self.entries = kept;
        self.bytes = bytes;
        self.releases = self.releases + freed;
    }
}

proof fn lemma_total_take(s: Seq<EntryView>, k: int)
    requires
        0 <= k <= s.len(),
    ensures
        total(s.take(k)) <= total(s),
    decreases s.len(),
{
    if k < s.len() {
        lemma_total_take(s.drop_last(), k);
        assert(s.drop_last().take(k) =~= s.take(k));
    } else {
        assert(s.take(k) =~= s);
    }
}

} // verus!
