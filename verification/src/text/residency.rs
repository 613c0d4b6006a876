//! What holds of the loaded font files over any run of calls of a database.

use vstd::prelude::*;

use crate::text::cache::{
    framed, lemma_fresh_part, lemma_slot, lemma_swept, lemma_taken_in, lemma_touched,
    lemma_trimmed_part, lemma_trimmed_to_cap, sane, slot_of, swept, the_newcomer_stays, total,
    trimmed_to_cap, what_is_in_use_is_kept, what_went_idle_is_dropped, CacheView, EntryView,
};
use crate::text::db::{asked_for, read_in, DbView, FaceData, FontId};

verus! {

/// A call of a database that the loaded files depend on.
pub enum DbCall {
    /// A face was asked for.
    Face(FontId),
    /// The bytes of a face's file were taken in.
    Loaded(FontId, Seq<u8>),
    /// A frame began.
    NextFrame,
    /// The idle files were released.
    ReleaseIdle,
    /// The cap was set.
    SetCacheLimit(usize),
}

/// The database after a call.
pub open spec fn called(v: DbView, call: DbCall) -> DbView {
    match call {
        DbCall::Face(font) => asked_for(v, font),
        DbCall::Loaded(font, bytes) => read_in(v, font, bytes),
        DbCall::NextFrame => DbView { cache: framed(v.cache), ..v },
        DbCall::ReleaseIdle => DbView { cache: swept(v.cache), ..v },
        DbCall::SetCacheLimit(bytes) => DbView {
            cache: trimmed_to_cap(CacheView { limit: bytes, ..v.cache }, None),
            ..v
        },
    }
}

/// Whether a call can be made: what is taken in is of a known face and not
/// there yet, and the counters can count on.
pub open spec fn callable(v: DbView, call: DbCall) -> bool {
    match call {
        DbCall::Loaded(font, bytes) => font.0 < v.faces.len() && slot_of(
            v.cache.entries,
            v.faces[font.0 as int].file,
        ) is None && v.cache.loads < u64::MAX && total(v.cache.entries) + bytes.len() <= usize::MAX,
        DbCall::NextFrame => v.cache.frame < u64::MAX,
        _ => true,
    }
}

/// The database after a run of calls.
pub open spec fn after_calls(v: DbView, calls: Seq<DbCall>) -> DbView
    decreases calls.len(),
{
    if calls.len() == 0 {
        v
    } else {
        called(after_calls(v, calls.drop_last()), calls.last())
    }
}

/// Whether every call of a run can be made when its turn comes.
pub open spec fn all_callable(v: DbView, calls: Seq<DbCall>) -> bool
    decreases calls.len(),
{
    calls.len() == 0 || (all_callable(v, calls.drop_last()) && callable(
        after_calls(v, calls.drop_last()),
        calls.last(),
    ))
}

/// The file that a run of calls took in last.
pub open spec fn last_read(v: DbView, calls: Seq<DbCall>) -> Option<u32>
    decreases calls.len(),
{
    if calls.len() == 0 {
        None
    } else if let DbCall::Loaded(font, _) = calls.last() {
        Some(v.faces[font.0 as int].file)
    } else {
        last_read(v, calls.drop_last())
    }
}

/// However an empty database is used: its files fit the cap, or all that is
/// there is the one file that was read last. The bytes are those of the
/// files that are there, and each file that was read is still there, was
/// evicted or was released.
pub proof fn over_the_cap_only_the_last_read_stays(v: DbView, calls: Seq<DbCall>)
    requires
        sane(v.cache),
        v.cache.entries.len() == 0,
        all_callable(v, calls),
    ensures
        ({
            let c = after_calls(v, calls).cache;
            &&& sane(c)
            &&& total(c.entries) <= c.limit || (c.entries.len() == 1 && last_read(v, calls) == Some(
                c.entries[0].file,
            ))
        }),
        after_calls(v, calls).faces == v.faces,
        after_calls(v, calls).files == v.files,
    decreases calls.len(),
{
    if calls.len() > 0 {
        over_the_cap_only_the_last_read_stays(v, calls.drop_last());
        let mid = after_calls(v, calls.drop_last());
        match calls.last() {
            DbCall::Face(font) => {
                if font.0 < mid.faces.len() {
                    let file = mid.faces[font.0 as int].file;
                    lemma_touched(mid.cache, file);
                    lemma_slot(mid.cache.entries, file);
                }
            },
            DbCall::Loaded(font, bytes) => {
                lemma_taken_in(mid.cache, mid.faces[font.0 as int].file, bytes);
            },
            DbCall::NextFrame => {},
            DbCall::ReleaseIdle => {
                lemma_swept(mid.cache);
                lemma_fresh_part(mid.cache.entries, mid.cache.frame);
                let kept = swept(mid.cache).entries;
                if kept.len() == 1 {
                    assert(mid.cache.entries.contains(kept[0]));
                }
            },
            DbCall::SetCacheLimit(bytes) => {
                lemma_trimmed_to_cap(CacheView { limit: bytes, ..mid.cache });
            },
        }
    }
}

/// A file that was read is kept by an idle release in the same frame, and
/// leaves with the first one after the next frame began, when nothing at all
/// is loaded any more. The new frame by itself drops nothing.
pub proof fn a_read_file_leaves_after_one_idle_frame(v: DbView, font: FontId, bytes: Seq<u8>)
    requires
        sane(v.cache),
        callable(v, DbCall::Loaded(font, bytes)),
        v.cache.frame < u64::MAX,
    ensures
        ({
            let c = read_in(v, font, bytes).cache;
            let e = EntryView {
                file: v.faces[font.0 as int].file,
                bytes,
                last_used: v.cache.frame,
            };
            &&& c.entries.contains(e)
            &&& swept(c).entries.contains(e)
            &&& framed(c).entries == c.entries
            &&& swept(framed(c)).entries.len() == 0
            &&& total(swept(framed(c)).entries) == 0
        }),
{
    let file = v.faces[font.0 as int].file;
    let e = EntryView { file, bytes, last_used: v.cache.frame };
    let all = v.cache.entries.push(e);
    let c = read_in(v, font, bytes).cache;
    lemma_taken_in(v.cache, file, bytes);
    assert(all[all.len() - 1] == e);
    the_newcomer_stays(all, v.cache.limit as nat, e);
    what_is_in_use_is_kept(c.entries, c.frame, e);
    what_went_idle_is_dropped(c.entries, framed(c).frame);
}

/// An idle release counts what it drops as released, never as evicted, and
/// reads nothing.
pub proof fn an_idle_release_evicts_nothing(c: CacheView)
    requires
        sane(c),
    ensures
        swept(c).evictions == c.evictions,
        swept(c).loads == c.loads,
        swept(c).releases == c.releases + (c.entries.len() - swept(c).entries.len()),
{
    lemma_swept(c);
}

/// The database after a face was asked for, its file read if that was
/// needed, and taken in if it could be read.
pub open spec fn face_read(v: DbView, font: FontId, on_disk: Option<Seq<u8>>) -> DbView {
    if needs_reading(v, font) && on_disk is Some {
        read_in(asked_for(v, font), font, on_disk->0)
    } else {
        asked_for(v, font)
    }
}

/// Whether a face is known and its file, which is listed, is not loaded.
pub open spec fn needs_reading(v: DbView, font: FontId) -> bool {
    &&& font.0 < v.faces.len()
    &&& slot_of(v.cache.entries, v.faces[font.0 as int].file) is None
    &&& v.faces[font.0 as int].file < v.files.len()
}

/// Reading a face counts one load exactly where its file was not loaded and
/// could be read. A face that is unknown or cannot be read leaves the files
/// and their bytes as they were.
pub proof fn a_face_counts_one_load(v: DbView, font: FontId, on_disk: Option<Seq<u8>>)
    requires
        sane(v.cache),
        v.cache.loads < u64::MAX,
    ensures
        face_read(v, font, on_disk).cache.loads == v.cache.loads + (if needs_reading(v, font)
            && on_disk is Some {
            1int
        } else {
            0
        }),
        !(needs_reading(v, font) && on_disk is Some) ==> {
            let c = face_read(v, font, on_disk).cache;
            &&& c.entries.len() == v.cache.entries.len()
            &&& total(c.entries) == total(v.cache.entries)
            &&& c.evictions == v.cache.evictions
            &&& c.releases == v.cache.releases
        },
{
    if font.0 < v.faces.len() {
        lemma_touched(v.cache, v.faces[font.0 as int].file);
    }
}

/// Whether all that is cached of a file is those bytes.
spec fn holds_only(c: CacheView, file: u32, bytes: Seq<u8>) -> bool {
    forall|k: int|
        0 <= k < c.entries.len() && (#[trigger] c.entries[k]).file == file ==> c.entries[k].bytes
            == bytes
}

/// Whether a run of calls takes in a file.
pub open spec fn reads_again(v: DbView, calls: Seq<DbCall>, file: u32) -> bool {
    exists|i: int|
        0 <= i < calls.len() && (#[trigger] calls[i] matches DbCall::Loaded(font, _)
            && v.faces[font.0 as int].file == file)
}

proof fn lemma_holds_only(v: DbView, calls: Seq<DbCall>, file: u32, bytes: Seq<u8>)
    requires
        sane(v.cache),
        all_callable(v, calls),
        holds_only(v.cache, file, bytes),
        !reads_again(v, calls, file),
    ensures
        holds_only(after_calls(v, calls).cache, file, bytes),
        sane(after_calls(v, calls).cache),
        after_calls(v, calls).faces == v.faces,
    decreases calls.len(),
{
    if calls.len() > 0 {
        let head = calls.drop_last();
        assert(!reads_again(v, head, file)) by {
            if reads_again(v, head, file) {
                let i = choose|i: int|
                    0 <= i < head.len() && (#[trigger] head[i] matches DbCall::Loaded(font, _)
                        && v.faces[font.0 as int].file == file);
                assert(calls[i] == head[i]);
            }
        }
        lemma_holds_only(v, head, file, bytes);
        let mid = after_calls(v, head);
        let now = after_calls(v, calls).cache.entries;
        let last = calls[calls.len() - 1];
        match last {
            DbCall::Face(font) => {
                if font.0 < mid.faces.len() {
                    lemma_touched(mid.cache, mid.faces[font.0 as int].file);
                    lemma_slot(mid.cache.entries, mid.faces[font.0 as int].file);
                    assert forall|k: int| 0 <= k < now.len() && (
                    #[trigger] now[k]).file == file implies now[k].bytes == bytes by {
                        assert(mid.cache.entries[k].file == now[k].file);
                    }
                }
            },
            DbCall::Loaded(font, read) => {
                let f = mid.faces[font.0 as int].file;
                let all = mid.cache.entries.push(
                    EntryView { file: f, bytes: read, last_used: mid.cache.frame },
                );
                lemma_taken_in(mid.cache, f, read);
                lemma_trimmed_part(all, mid.cache.limit as nat, Some(f));
                assert forall|k: int| 0 <= k < now.len() && (
                #[trigger] now[k]).file == file implies now[k].bytes == bytes by {
                    assert(now.contains(now[k]));
                    let j = choose|j: int| 0 <= j < all.len() && all[j] == now[k];
                    if j < mid.cache.entries.len() {
                        assert(mid.cache.entries[j] == now[k]);
                    }
                }
            },
            DbCall::NextFrame => {},
            DbCall::ReleaseIdle => {
                lemma_swept(mid.cache);
                lemma_fresh_part(mid.cache.entries, mid.cache.frame);
                assert forall|k: int| 0 <= k < now.len() && (
                #[trigger] now[k]).file == file implies now[k].bytes == bytes by {
                    assert(mid.cache.entries.contains(now[k]));
                }
            },
            DbCall::SetCacheLimit(limit) => {
                lemma_trimmed_to_cap(CacheView { limit, ..mid.cache });
                lemma_trimmed_part(mid.cache.entries, limit as nat, None);
                assert forall|k: int| 0 <= k < now.len() && (
                #[trigger] now[k]).file == file implies now[k].bytes == bytes by {
                    assert(now.contains(now[k]));
                    assert(mid.cache.entries.contains(now[k]));
                }
            },
        }
    }
}

/// What was handed out for a face stays what the database has of it, whatever
/// is done to the database afterwards: for as long as the file is not read
/// again, the face keeps its index, and its file, while it is loaded, keeps
/// its bytes.
pub proof fn what_was_handed_out_stays(
    v: DbView,
    calls: Seq<DbCall>,
    font: FontId,
    d: FaceData,
    at: int,
)
    requires
        sane(v.cache),
        all_callable(v, calls),
        font.0 < v.faces.len(),
        slot_of(v.cache.entries, v.faces[font.0 as int].file) == Some(at),
        d.bytes_view() == v.cache.entries[at].bytes,
        d.index_view() == v.faces[font.0 as int].index,
    ensures
        !reads_again(v, calls, v.faces[font.0 as int].file) ==> {
            let w = after_calls(v, calls);
            &&& w.faces[font.0 as int].index == d.index_view()
            &&& slot_of(w.cache.entries, w.faces[font.0 as int].file) matches Some(i)
                ==> w.cache.entries[i].bytes == d.bytes_view()
        },
{
    let file = v.faces[font.0 as int].file;
    lemma_slot(v.cache.entries, file);
    assert(holds_only(v.cache, file, d.bytes_view())) by {
        let s = v.cache.entries;
        assert forall|k: int| 0 <= k < s.len() && (#[trigger] s[k]).file == file implies s[k].bytes
            == d.bytes_view() by {
            if k < at {
                assert(s[k].file != s[at].file);
            } else if at < k {
                assert(s[at].file != s[k].file);
            }
        }
    }
    if !reads_again(v, calls, file) {
        lemma_holds_only(v, calls, file, d.bytes_view());
        lemma_slot(after_calls(v, calls).cache.entries, file);
    }
}

} // verus!
