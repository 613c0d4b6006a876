//! What may be relied on when a face is asked for: which one is the closest,
//! whose family is used, and what is fallen back on.

use vstd::prelude::*;

use crate::chars::{
    holds, lemma_text_chain, lemma_text_order, lower, sorting_orders_and_keeps, text_before,
    text_sorted, trim,
};
use crate::text::db::{
    alias_families, alias_first, apart, closest, distance, fallback_chain, fits, fitting,
    generic_of, ids_of, is_mono, key, least, names_of, one_each, others, parsed_family, picked,
    prefs_of, present, resolved_family, selected, FamilyView, NORMAL_STRETCH,
};
use crate::text::index::FaceView;

verus! {

// ---------------------------------------------------------------------
// the distance
// ---------------------------------------------------------------------

/// Among faces of one slant and width on one side of the wanted weight, the
/// one whose weight is nearer beats the other. A face of the wanted weight
/// is on either side.
pub proof fn the_nearer_weight_comes_fourth(a: FaceView, b: FaceView, weight: u16, italic: bool)
    requires
        a.italic == b.italic,
        a.stretch == b.stretch,
        (a.weight >= weight && b.weight >= weight) || (a.weight <= weight && b.weight <= weight),
        apart(a.weight as int, weight as int) < apart(b.weight as int, weight as int),
    ensures
        distance(a, weight, italic) < distance(b, weight, italic),
{
}

/// Slant, width and weight are all that counts: two faces that agree in them
/// are equally close, and too narrow is as far as too wide.
pub proof fn only_attributes_count(a: FaceView, b: FaceView, weight: u16, italic: bool)
    requires
        a.italic == b.italic,
        a.weight == b.weight,
        apart(a.stretch as int, NORMAL_STRETCH as int) == apart(
            b.stretch as int,
            NORMAL_STRETCH as int,
        ),
    ensures
        distance(a, weight, italic) == distance(b, weight, italic),
{
}

/// Nothing beats a face of normal width that is just as it was asked for,
/// and nothing else is as close.
pub proof fn an_exact_face_is_unbeaten(a: FaceView, b: FaceView, weight: u16, italic: bool)
    requires
        a.italic == italic,
        a.weight == weight,
        a.stretch == NORMAL_STRETCH,
    ensures
        distance(a, weight, italic) <= distance(b, weight, italic),
        distance(a, weight, italic) == distance(b, weight, italic) ==> b.italic == italic
            && b.weight == weight && b.stretch == NORMAL_STRETCH,
{
}

// ---------------------------------------------------------------------
// the closest face of a family
// ---------------------------------------------------------------------

proof fn lemma_ids_of(faces: Seq<FaceView>, name: Seq<char>)
    requires
        faces.len() <= 0x1_0000_0000,
    ensures
        forall|i: int|
            0 <= i < ids_of(faces, name).len() ==> (#[trigger] ids_of(faces, name)[i]) < faces.len()
                && key(faces[ids_of(faces, name)[i] as int]) == name,
        forall|i: int, j: int|
            0 <= i < j < ids_of(faces, name).len() ==> (#[trigger] ids_of(faces, name)[i]) < (
            #[trigger] ids_of(faces, name)[j]),
        forall|j: int|
            0 <= j < faces.len() && key(#[trigger] faces[j]) == name ==> ids_of(
                faces,
                name,
            ).contains(j as u32),
    decreases faces.len(),
{
    if faces.len() > 0 {
        let head = faces.drop_last();
        lemma_ids_of(head, name);
        let before = ids_of(head, name);
        let after = ids_of(faces, name);
        assert forall|i: int| 0 <= i < after.len() implies (#[trigger] after[i]) < faces.len()
            && key(faces[after[i] as int]) == name by {
            if i < before.len() {
                assert(after[i] == before[i]);
                assert(faces[before[i] as int] == head[before[i] as int]);
            }
        }
        assert forall|i: int, j: int| 0 <= i < j < after.len() implies (#[trigger] after[i]) < (
        #[trigger] after[j]) by {
            assert(after[i] == before[i]);
            if j < before.len() {
                assert(after[j] == before[j]);
            }
        }
        assert forall|j: int| 0 <= j < faces.len() && key(#[trigger] faces[j]) == name implies after
            .contains(j as u32) by {
            if j < head.len() {
                assert(head[j] == faces[j]);
                let k = choose|k: int| 0 <= k < before.len() && before[k] == j as u32;
                assert(after[k] == j as u32);
            } else {
                assert(after[before.len() as int] == j as u32);
            }
        }
    }
}

proof fn lemma_closest(faces: Seq<FaceView>, ids: Seq<u32>, weight: u16, italic: bool)
    ensures
        ids.len() > 0 <==> closest(faces, ids, weight, italic) is Some,
        closest(faces, ids, weight, italic) matches Some(b) ==> exists|m: int|
            {
                &&& 0 <= m < ids.len() && #[trigger] ids[m] == b
                &&& forall|k: int|
                    0 <= k < ids.len() ==> distance(faces[b as int], weight, italic) <= distance(
                        faces[#[trigger] ids[k] as int],
                        weight,
                        italic,
                    )
                &&& forall|k: int|
                    0 <= k < m ==> distance(faces[b as int], weight, italic) < distance(
                        faces[#[trigger] ids[k] as int],
                        weight,
                        italic,
                    )
            },
    decreases ids.len(),
{
    if ids.len() > 0 {
        let head = ids.drop_last();
        let x = ids.last();
        let n = head.len() as int;
        lemma_closest(faces, head, weight, italic);
        assert(ids[n] == x);
        assert(forall|k: int| 0 <= k < n ==> #[trigger] ids[k] == head[k]);
        if let Some(b) = closest(faces, head, weight, italic) {
            let m = choose|m: int|
                {
                    &&& 0 <= m < head.len() && #[trigger] head[m] == b
                    &&& forall|k: int|
                        0 <= k < head.len() ==> distance(faces[b as int], weight, italic)
                            <= distance(faces[#[trigger] head[k] as int], weight, italic)
                    &&& forall|k: int|
                        0 <= k < m ==> distance(faces[b as int], weight, italic) < distance(
                            faces[#[trigger] head[k] as int],
                            weight,
                            italic,
                        )
                };
            assert forall|k: int| 0 <= k < n implies distance(faces[b as int], weight, italic)
                <= distance(faces[#[trigger] ids[k] as int], weight, italic) by {
                assert(head[k] == ids[k]);
            }
            assert forall|k: int| 0 <= k < m implies distance(faces[b as int], weight, italic)
                < distance(faces[#[trigger] ids[k] as int], weight, italic) by {
                assert(head[k] == ids[k]);
            }
            assert(ids[m] == b);
        }
    }
}

/// The face that is picked from a family is of that family, and no face of
/// the family is closer to the request; of equally close ones, it is the one
/// that was found first. A family with a face always has one to pick.
pub proof fn the_closest_face_is_picked(
    faces: Seq<FaceView>,
    name: Seq<char>,
    weight: u16,
    italic: bool,
    j: int,
)
    requires
        faces.len() <= 0x1_0000_0000,
        0 <= j < faces.len(),
        key(faces[j]) == name,
    ensures
        picked(faces, name, weight, italic) matches Some(id) && {
            &&& id < faces.len()
            &&& key(faces[id as int]) == name
            &&& distance(faces[id as int], weight, italic) <= distance(faces[j], weight, italic)
            &&& j < id ==> distance(faces[id as int], weight, italic) < distance(
                faces[j],
                weight,
                italic,
            )
        },
{
    let ids = ids_of(faces, name);
    lemma_ids_of(faces, name);
    lemma_closest(faces, ids, weight, italic);
    assert(ids.contains(j as u32));
    let k = choose|k: int| 0 <= k < ids.len() && ids[k] == j as u32;
    let b = closest(faces, ids, weight, italic)->0;
    let m = choose|m: int|
        {
            &&& 0 <= m < ids.len() && #[trigger] ids[m] == b
            &&& forall|k: int|
                0 <= k < ids.len() ==> distance(faces[b as int], weight, italic) <= distance(
                    faces[#[trigger] ids[k] as int],
                    weight,
                    italic,
                )
            &&& forall|k: int|
                0 <= k < m ==> distance(faces[b as int], weight, italic) < distance(
                    faces[#[trigger] ids[k] as int],
                    weight,
                    italic,
                )
        };
    assert(ids[m] == b);
    assert(ids[k] as int == j);
    if j < b {
        if m <= k {
            if m < k {
                assert(ids[m] < ids[k]);
            }
        }
        assert(k < m);
    }
}

// ---------------------------------------------------------------------
// the family
// ---------------------------------------------------------------------

/// Whether some face is of a family.
pub open spec fn family_is_there(faces: Seq<FaceView>, name: Seq<char>) -> bool {
    exists|j: int| 0 <= j < faces.len() && key(#[trigger] faces[j]) == name
}

proof fn lemma_names_of(faces: Seq<FaceView>, name: Seq<char>)
    ensures
        names_of(faces).contains(name) <==> family_is_there(faces, name),
        names_of(faces).no_duplicates(),
    decreases faces.len(),
{
    if faces.len() > 0 {
        let head = faces.drop_last();
        let a = names_of(head);
        let b = names_of(faces);
        let n = head.len() as int;
        lemma_names_of(head, name);
        if b.contains(name) {
            let k = choose|k: int| 0 <= k < b.len() && b[k] == name;
            if k < a.len() {
                assert(a[k] == name);
                let j = choose|j: int| 0 <= j < head.len() && key(#[trigger] head[j]) == name;
                assert(key(faces[j]) == name);
            } else {
                assert(key(faces[n]) == name);
            }
        }
        if family_is_there(faces, name) {
            let j = choose|j: int| 0 <= j < faces.len() && key(#[trigger] faces[j]) == name;
            if j < n {
                assert(key(head[j]) == name);
                let k = choose|k: int| 0 <= k < a.len() && a[k] == name;
                assert(b[k] == name);
            } else if a.contains(name) {
                let k = choose|k: int| 0 <= k < a.len() && a[k] == name;
                assert(b[k] == name);
            } else {
                assert(b[a.len() as int] == name);
            }
        }
    }
}

/// A family that was asked for by name is used where it is there, whatever
/// the case of its letters; where it is not, the request is one for sans.
pub proof fn a_named_family_is_used(
    faces: Seq<FaceView>,
    name: Seq<char>,
    weight: u16,
    italic: bool,
)
    requires
        faces.len() <= 0x1_0000_0000,
    ensures
        family_is_there(faces, lower(name)) ==> (selected(
            faces,
            FamilyView::Named(name),
            weight,
            italic,
        ) matches Some(id) && id < faces.len() && lower(faces[id as int].family) == lower(name)),
        !family_is_there(faces, lower(name)) ==> selected(
            faces,
            FamilyView::Named(name),
            weight,
            italic,
        ) == selected(faces, FamilyView::Sans, weight, italic),
{
    lemma_names_of(faces, lower(name));
    if family_is_there(faces, lower(name)) {
        let j = choose|j: int| 0 <= j < faces.len() && key(#[trigger] faces[j]) == lower(name);
        the_closest_face_is_picked(faces, lower(name), weight, italic, j);
    }
}

proof fn lemma_present_first(wanted: Seq<Seq<char>>, names: Seq<Seq<char>>, k: int)
    requires
        0 <= k < wanted.len(),
        names.contains(wanted[k]),
        forall|i: int| 0 <= i < k ==> !names.contains(#[trigger] wanted[i]),
    ensures
        present(wanted, names).len() > 0,
        present(wanted, names)[0] == wanted[k],
    decreases wanted.len(),
{
    let head = wanted.drop_last();
    if k < head.len() {
        assert(head[k] == wanted[k]);
        assert forall|i: int| 0 <= i < k implies !names.contains(#[trigger] head[i]) by {
            assert(head[i] == wanted[i]);
        }
        lemma_present_first(head, names, k);
    } else {
        assert forall|i: int| 0 <= i < head.len() implies !names.contains(#[trigger] head[i]) by {
            assert(head[i] == wanted[i]);
        }
        lemma_present_none(head, names);
    }
}

proof fn lemma_present_none(wanted: Seq<Seq<char>>, names: Seq<Seq<char>>)
    requires
        forall|i: int| 0 <= i < wanted.len() ==> !names.contains(#[trigger] wanted[i]),
    ensures
        present(wanted, names).len() == 0,
    decreases wanted.len(),
{
    if wanted.len() > 0 {
        let head = wanted.drop_last();
        assert(!names.contains(wanted[wanted.len() - 1]));
        assert forall|i: int| 0 <= i < head.len() implies !names.contains(#[trigger] head[i]) by {
            assert(head[i] == wanted[i]);
        }
        lemma_present_none(head, names);
    }
}

/// A generic name stands for the family that it likes most of those that are
/// there: one that is liked is used unless one that is liked more is there.
pub proof fn the_most_liked_family_is_used(
    faces: Seq<FaceView>,
    generic: FamilyView,
    weight: u16,
    italic: bool,
    k: int,
)
    requires
        faces.len() <= 0x1_0000_0000,
        generic !is Named,
        0 <= k < prefs_of(generic).len(),
        family_is_there(faces, prefs_of(generic)[k]),
        forall|i: int| 0 <= i < k ==> !family_is_there(faces, #[trigger] prefs_of(generic)[i]),
    ensures
        selected(faces, generic, weight, italic) matches Some(id) && id < faces.len() && key(
            faces[id as int],
        ) == prefs_of(generic)[k],
{
    let wanted = prefs_of(generic);
    let names = names_of(faces);
    assert forall|i: int| 0 <= i < k implies !names.contains(#[trigger] wanted[i]) by {
        lemma_names_of(faces, wanted[i]);
    }
    lemma_names_of(faces, wanted[k]);
    lemma_present_first(wanted, names, k);
    let j = choose|j: int| 0 <= j < faces.len() && key(#[trigger] faces[j]) == wanted[k];
    the_closest_face_is_picked(faces, wanted[k], weight, italic, j);
}

proof fn lemma_fitting_all(
    faces: Seq<FaceView>,
    names: Seq<Seq<char>>,
    generic: FamilyView,
    name: Seq<char>,
)
    ensures
        fitting(faces, names, generic).contains(name) <==> names.contains(name) && fits(
            faces,
            name,
            generic,
        ),
        names.no_duplicates() ==> fitting(faces, names, generic).no_duplicates(),
    decreases names.len(),
{
    if names.len() > 0 {
        let head = names.drop_last();
        let a = fitting(faces, head, generic);
        let b = fitting(faces, names, generic);
        lemma_fitting_all(faces, head, generic, name);
        lemma_fitting_all(faces, head, generic, names.last());
        assert(names[names.len() - 1] == names.last());
        if head.contains(name) {
            let k = choose|k: int| 0 <= k < head.len() && head[k] == name;
            assert(names[k] == name);
        }
        if a.contains(name) {
            let k = choose|k: int| 0 <= k < a.len() && a[k] == name;
            assert(b[k] == name);
        }
        if name == names.last() && fits(faces, name, generic) {
            assert(b[a.len() as int] == name);
        }
        if b.contains(name) {
            let k = choose|k: int| 0 <= k < b.len() && b[k] == name;
            if k < a.len() {
                assert(a[k] == name);
            }
        }
        if names.contains(name) && name != names.last() {
            let k = choose|k: int| 0 <= k < names.len() && names[k] == name;
            assert(head[k] == name);
        }
        if names.no_duplicates() {
            assert(head.no_duplicates());
            if a.contains(names.last()) {
                let k = choose|k: int| 0 <= k < head.len() && head[k] == names.last();
                assert(names[k] == names[names.len() - 1]);
            }
        }
    }
}

proof fn lemma_least_of(s: Seq<Seq<char>>, x: Seq<char>)
    requires
        s.contains(x),
    ensures
        least(s) matches Some(m) && s.contains(m) && !text_before(x, m),
    decreases s.len(),
{
    let head = s.drop_last();
    assert(s[s.len() - 1] == s.last());
    if head.len() > 0 {
        lemma_least_of(head, head[0]);
        let b = least(head)->0;
        let k = choose|k: int| 0 <= k < head.len() && head[k] == b;
        assert(s[k] == b);
        if head.contains(x) {
            lemma_least_of(head, x);
            if text_before(s.last(), b) && text_before(x, s.last()) {
                lemma_text_chain(x, s.last(), b);
            }
        } else {
            let i = choose|i: int| 0 <= i < s.len() && s[i] == x;
            if i < head.len() {
                assert(head[i] == x);
            }
            lemma_text_order(x, x);
        }
    } else {
        let i = choose|i: int| 0 <= i < s.len() && s[i] == x;
        lemma_text_order(x, x);
        assert(least(head) is None);
    }
}

/// Where no family that a generic name likes is there, it stands for the
/// first in alphabetical order of those that fit it, and for the first of all
/// where none does.
pub proof fn the_first_that_fits_is_used(
    faces: Seq<FaceView>,
    generic: FamilyView,
    weight: u16,
    italic: bool,
    j: int,
)
    requires
        faces.len() <= 0x1_0000_0000,
        generic !is Named,
        0 <= j < faces.len(),
        forall|i: int|
            0 <= i < prefs_of(generic).len() ==> !family_is_there(
                faces,
                #[trigger] prefs_of(generic)[i],
            ),
    ensures
        selected(faces, generic, weight, italic) matches Some(id) && {
            let used = key(faces[id as int]);
            &&& id < faces.len()
            &&& fits(faces, key(faces[j]), generic) ==> fits(faces, used, generic) && !text_before(
                key(faces[j]),
                used,
            )
            &&& !fits(faces, used, generic) ==> !text_before(key(faces[j]), used)
        },
{
    let wanted = prefs_of(generic);
    let names = names_of(faces);
    assert forall|i: int| 0 <= i < wanted.len() implies !names.contains(#[trigger] wanted[i]) by {
        lemma_names_of(faces, wanted[i]);
    }
    lemma_present_none(wanted, names);
    let name = key(faces[j]);
    lemma_names_of(faces, name);
    assert(family_is_there(faces, name));
    let fit = fitting(faces, names, generic);
    lemma_fitting_all(faces, names, generic, name);
    lemma_least_of(names, name);
    if fits(faces, name, generic) {
        lemma_least_of(fit, name);
    } else if fit.len() > 0 {
        lemma_least_of(fit, fit[0]);
    }
    let used = alias_first(faces, generic)->0;
    if fit.len() > 0 {
        assert(fit.contains(used));
        lemma_fitting_all(faces, names, generic, used);
    }
    assert(names.contains(used));
    lemma_names_of(faces, used);
    let k = choose|k: int| 0 <= k < faces.len() && key(#[trigger] faces[k]) == used;
    the_closest_face_is_picked(faces, used, weight, italic, k);
}

/// A family is monospace exactly where one of its faces is, or where its name
/// says so.
pub proof fn one_monospace_face_makes_a_family(faces: Seq<FaceView>, name: Seq<char>)
    ensures
        is_mono(faces, name) <==> exists|j: int|
            0 <= j < faces.len() && key(#[trigger] faces[j]) == name && (faces[j].monospace
                || holds(name, "mono"@)),
    decreases faces.len(),
{
    if faces.len() > 0 {
        let head = faces.drop_last();
        let n = head.len() as int;
        one_monospace_face_makes_a_family(head, name);
        if is_mono(head, name) {
            let j = choose|j: int|
                0 <= j < head.len() && key(#[trigger] head[j]) == name && (head[j].monospace
                    || holds(name, "mono"@));
            assert(key(faces[j]) == name);
        }
        assert(faces[n] == faces.last());
        if exists|j: int|
            0 <= j < faces.len() && key(#[trigger] faces[j]) == name && (faces[j].monospace
                || holds(name, "mono"@)) {
            let j = choose|j: int|
                0 <= j < faces.len() && key(#[trigger] faces[j]) == name && (faces[j].monospace
                    || holds(name, "mono"@));
            if j < n {
                assert(key(head[j]) == name);
            }
        }
    }
}

/// Each family fits one generic name and no other.
pub proof fn a_family_fits_one_alias(faces: Seq<FaceView>, name: Seq<char>)
    ensures
        fits(faces, name, FamilyView::Mono) <==> is_mono(faces, name),
        fits(faces, name, FamilyView::Serif) <==> !is_mono(faces, name) && holds(name, "serif"@)
            && !holds(name, "sans"@),
        fits(faces, name, FamilyView::Sans) <==> !fits(faces, name, FamilyView::Mono) && !fits(
            faces,
            name,
            FamilyView::Serif,
        ),
{
}

// ---------------------------------------------------------------------
// the fallback chain
// ---------------------------------------------------------------------

proof fn lemma_one_each(
    faces: Seq<FaceView>,
    names: Seq<Seq<char>>,
    seen: Seq<Seq<char>>,
    weight: u16,
    italic: bool,
)
    requires
        faces.len() <= 0x1_0000_0000,
    ensures
        ({
            let out = one_each(faces, names, seen, weight, italic);
            &&& forall|i: int|
                0 <= i < out.len() ==> (#[trigger] out[i]) < faces.len() && names.contains(
                    key(faces[out[i] as int]),
                ) && !seen.contains(key(faces[out[i] as int])) && picked(
                    faces,
                    key(faces[out[i] as int]),
                    weight,
                    italic,
                ) == Some(out[i])
            &&& forall|i: int, j: int|
                0 <= i < j < out.len() ==> key(faces[#[trigger] out[i] as int]) != key(
                    faces[#[trigger] out[j] as int],
                )
            &&& forall|n: int|
                0 <= n < names.len() && !seen.contains(names[n]) && family_is_there(
                    faces,
                    #[trigger] names[n],
                ) ==> exists|i: int|
                    0 <= i < out.len() && key(faces[#[trigger] out[i] as int]) == names[n]
        }),
    decreases names.len(),
{
    let out = one_each(faces, names, seen, weight, italic);
    if names.len() > 0 {
        let rest = names.drop_first();
        let first = names[0];
        let id = picked(faces, first, weight, italic);
        if !seen.contains(first) && id is Some {
            lemma_ids_of(faces, first);
            lemma_closest(faces, ids_of(faces, first), weight, italic);
            assert(key(faces[id->0 as int]) == first && id->0 < faces.len());
            let more = seen.push(first);
            lemma_one_each(faces, rest, more, weight, italic);
            let tail = one_each(faces, rest, more, weight, italic);
            assert(out =~= seq![id->0] + tail);
            assert(more[seen.len() as int] == first);
            assert forall|i: int| 0 <= i < out.len() implies (#[trigger] out[i]) < faces.len()
                && names.contains(key(faces[out[i] as int])) && !seen.contains(
                key(faces[out[i] as int]),
            ) && picked(faces, key(faces[out[i] as int]), weight, italic) == Some(out[i]) by {
                if i > 0 {
                    let x = key(faces[tail[i - 1] as int]);
                    assert(out[i] == tail[i - 1]);
                    let k = choose|k: int| 0 <= k < rest.len() && rest[k] == x;
                    assert(names[k + 1] == x);
                    if seen.contains(x) {
                        let k = choose|k: int| 0 <= k < seen.len() && seen[k] == x;
                        assert(more[k] == x);
                    }
                } else {
                    assert(names[0] == first);
                }
            }
            assert forall|i: int, j: int| 0 <= i < j < out.len() implies key(
                faces[#[trigger] out[i] as int],
            ) != key(faces[#[trigger] out[j] as int]) by {
                assert(out[j] == tail[j - 1]);
                if i == 0 {
                    assert(more.contains(first));
                } else {
                    assert(out[i] == tail[i - 1]);
                }
            }
            assert forall|n: int|
                0 <= n < names.len() && !seen.contains(names[n]) && family_is_there(
                    faces,
                    #[trigger] names[n],
                ) implies exists|i: int|
                0 <= i < out.len() && key(faces[#[trigger] out[i] as int]) == names[n] by {
                if names[n] == first {
                    assert(key(faces[out[0] as int]) == first);
                } else {
                    assert(rest[n - 1] == names[n]);
                    assert(!more.contains(names[n])) by {
                        if more.contains(names[n]) {
                            let k = choose|k: int| 0 <= k < more.len() && more[k] == names[n];
                            if k < seen.len() {
                                assert(seen[k] == names[n]);
                            }
                        }
                    }
                    assert(family_is_there(faces, rest[n - 1]));
                    let i = choose|i: int|
                        0 <= i < tail.len() && key(faces[#[trigger] tail[i] as int]) == rest[n - 1];
                    assert(out[i + 1] == tail[i]);
                }
            }
        } else {
            lemma_one_each(faces, rest, seen, weight, italic);
            assert forall|i: int| 0 <= i < out.len() implies names.contains(
                key(faces[#[trigger] out[i] as int]),
            ) by {
                let x = key(faces[out[i] as int]);
                let k = choose|k: int| 0 <= k < rest.len() && rest[k] == x;
                assert(names[k + 1] == x);
            }
            assert forall|n: int|
                0 <= n < names.len() && !seen.contains(names[n]) && family_is_there(
                    faces,
                    #[trigger] names[n],
                ) implies exists|i: int|
                0 <= i < out.len() && key(faces[#[trigger] out[i] as int]) == names[n] by {
                if n == 0 {
                    let j = choose|j: int|
                        0 <= j < faces.len() && key(#[trigger] faces[j]) == names[0];
                    the_closest_face_is_picked(faces, names[0], weight, italic, j);
                } else {
                    assert(rest[n - 1] == names[n]);
                    assert(family_is_there(faces, rest[n - 1]));
                }
            }
        }
    }
}

proof fn lemma_others(s: Seq<Seq<char>>, out: Seq<Seq<char>>, x: Seq<char>)
    ensures
        others(s, out).contains(x) <==> s.contains(x) && !out.contains(x),
    decreases s.len(),
{
    if s.len() > 0 {
        let head = s.drop_last();
        let a = others(head, out);
        let b = others(s, out);
        lemma_others(head, out, x);
        assert(s[s.len() - 1] == s.last());
        if head.contains(x) {
            let k = choose|k: int| 0 <= k < head.len() && head[k] == x;
            assert(s[k] == x);
        }
        if a.contains(x) {
            let k = choose|k: int| 0 <= k < a.len() && a[k] == x;
            assert(b[k] == x);
        }
        if x == s.last() && !out.contains(x) {
            assert(b[a.len() as int] == x);
        }
        if b.contains(x) {
            let k = choose|k: int| 0 <= k < b.len() && b[k] == x;
            if k < a.len() {
                assert(a[k] == x);
            }
        }
        if s.contains(x) && x != s.last() {
            let k = choose|k: int| 0 <= k < s.len() && s[k] == x;
            assert(head[k] == x);
        }
    }
}

proof fn lemma_present_all(wanted: Seq<Seq<char>>, names: Seq<Seq<char>>, x: Seq<char>)
    ensures
        present(wanted, names).contains(x) <==> wanted.contains(x) && names.contains(x),
    decreases wanted.len(),
{
    if wanted.len() > 0 {
        let head = wanted.drop_last();
        let a = present(head, names);
        let b = present(wanted, names);
        lemma_present_all(head, names, x);
        assert(wanted[wanted.len() - 1] == wanted.last());
        if head.contains(x) {
            let k = choose|k: int| 0 <= k < head.len() && head[k] == x;
            assert(wanted[k] == x);
        }
        if a.contains(x) {
            let k = choose|k: int| 0 <= k < a.len() && a[k] == x;
            assert(b[k] == x);
        }
        if x == wanted.last() && names.contains(x) {
            assert(b[a.len() as int] == x);
        }
        if b.contains(x) {
            let k = choose|k: int| 0 <= k < b.len() && b[k] == x;
            if k < a.len() {
                assert(a[k] == x);
            }
        }
        if wanted.contains(x) && x != wanted.last() {
            let k = choose|k: int| 0 <= k < wanted.len() && wanted[k] == x;
            assert(head[k] == x);
        }
    }
}

/// Which families an alias falls back on: those that it likes and those that
/// fit it, of the ones that are there.
proof fn lemma_alias_families(faces: Seq<FaceView>, generic: FamilyView, x: Seq<char>)
    ensures
        alias_families(faces, generic).contains(x) <==> family_is_there(faces, x) && (prefs_of(
            generic,
        ).contains(x) || fits(faces, x, generic)),
{
    broadcast use vstd::seq_lib::group_to_multiset_ensures;

    let names = names_of(faces);
    let liked = present(prefs_of(generic), names);
    let fit = fitting(faces, names, generic);
    let rest = others(fit, liked);
    let all = alias_families(faces, generic);
    lemma_names_of(faces, x);
    lemma_present_all(prefs_of(generic), names, x);
    lemma_fitting_all(faces, names, generic, x);
    lemma_others(fit, liked, x);
    sorting_orders_and_keeps(rest);
    let sorted = text_sorted(rest);
    assert(sorted.contains(x) <==> rest.contains(x)) by {
        assert(sorted.to_multiset().count(x) == rest.to_multiset().count(x));
    }
    if all.contains(x) {
        let k = choose|k: int| 0 <= k < all.len() && all[k] == x;
        if k < liked.len() {
            assert(liked[k] == x);
        } else {
            assert(sorted[k - liked.len()] == x);
        }
    }
    if liked.contains(x) {
        let k = choose|k: int| 0 <= k < liked.len() && liked[k] == x;
        assert(all[k] == x);
    }
    if sorted.contains(x) {
        let k = choose|k: int| 0 <= k < sorted.len() && sorted[k] == x;
        assert(all[liked.len() + k] == x);
    }
}

/// The chain of a request starts with the face that is selected for it, no
/// family is in it twice, each of its faces is the closest of its family,
/// and every family that the alias of the request likes, or that fits it, is
/// in it; and behind the first, no other family is.
pub proof fn the_chain_has_each_family_once(
    faces: Seq<FaceView>,
    family: FamilyView,
    weight: u16,
    italic: bool,
)
    requires
        0 < faces.len() <= 0x1_0000_0000,
    ensures
        ({
            let chain = fallback_chain(faces, family, weight, italic);
            let generic = generic_of(family);
            &&& chain.len() > 0 && Some(chain[0]) == selected(faces, family, weight, italic)
            &&& forall|i: int|
                0 <= i < chain.len() ==> (#[trigger] chain[i]) < faces.len() && picked(
                    faces,
                    key(faces[chain[i] as int]),
                    weight,
                    italic,
                ) == Some(chain[i])
            &&& forall|i: int, j: int|
                0 <= i < j < chain.len() ==> key(faces[#[trigger] chain[i] as int]) != key(
                    faces[#[trigger] chain[j] as int],
                )
            &&& forall|j: int|
                0 <= j < faces.len() && (prefs_of(generic).contains(key(#[trigger] faces[j]))
                    || fits(faces, key(faces[j]), generic)) ==> exists|i: int|
                    0 <= i < chain.len() && key(faces[#[trigger] chain[i] as int]) == key(faces[j])
            &&& forall|i: int|
                1 <= i < chain.len() ==> prefs_of(generic).contains(
                    key(faces[#[trigger] chain[i] as int]),
                ) || fits(faces, key(faces[chain[i] as int]), generic)
        }),
{
    crate::text::db::only_an_empty_database_has_no_face(faces, family, weight, italic);
    let generic = generic_of(family);
    let names = alias_families(faces, generic);
    let chain = fallback_chain(faces, family, weight, italic);
    let id = selected(faces, family, weight, italic)->0;
    let name = resolved_family(faces, family)->0;
    lemma_ids_of(faces, name);
    lemma_closest(faces, ids_of(faces, name), weight, italic);
    assert(id < faces.len() && key(faces[id as int]) == name);
    let seen = seq![name];
    let tail = one_each(faces, names, seen, weight, italic);
    lemma_one_each(faces, names, seen, weight, italic);
    assert(chain =~= seq![id] + tail);
    assert(seen[0] == name);
    assert(seen.contains(name));
    assert forall|i: int| 0 <= i < chain.len() implies (#[trigger] chain[i]) < faces.len() && picked(
        faces,
        key(faces[chain[i] as int]),
        weight,
        italic,
    ) == Some(chain[i]) by {
        if i > 0 {
            assert(chain[i] == tail[i - 1]);
        }
    }
    assert forall|i: int, j: int| 0 <= i < j < chain.len() implies key(
        faces[#[trigger] chain[i] as int],
    ) != key(faces[#[trigger] chain[j] as int]) by {
        assert(chain[j] == tail[j - 1]);
        if i > 0 {
            assert(chain[i] == tail[i - 1]);
        }
    }
    assert forall|j: int|
        0 <= j < faces.len() && (prefs_of(generic).contains(key(#[trigger] faces[j])) || fits(
            faces,
            key(faces[j]),
            generic,
        )) implies exists|i: int|
        0 <= i < chain.len() && key(faces[#[trigger] chain[i] as int]) == key(faces[j]) by {
        let x = key(faces[j]);
        lemma_alias_families(faces, generic, x);
        assert(family_is_there(faces, x));
        if x == name {
            assert(key(faces[chain[0] as int]) == x);
        } else {
            let n = choose|n: int| 0 <= n < names.len() && names[n] == x;
            assert(family_is_there(faces, names[n]));
            assert(!seen.contains(names[n]));
            let i = choose|i: int|
                0 <= i < tail.len() && key(faces[#[trigger] tail[i] as int]) == names[n];
            assert(chain[i + 1] == tail[i]);
        }
    }
    assert forall|i: int| 1 <= i < chain.len() implies prefs_of(generic).contains(
        key(faces[#[trigger] chain[i] as int]),
    ) || fits(faces, key(faces[chain[i] as int]), generic) by {
        assert(chain[i] == tail[i - 1]);
        lemma_alias_families(faces, generic, key(faces[chain[i] as int]));
    }
}

/// A family that is asked for by one of the general names is the general one,
/// in whatever case the name is and with blanks around it or without; any
/// other name is taken as it is.
pub proof fn a_general_name_is_understood(s: Seq<char>)
    ensures
        ({
            let name = lower(trim(s));
            &&& parsed_family(s) is Sans <==> name == "sans"@ || name == "sans-serif"@
            &&& parsed_family(s) is Mono <==> name == "mono"@ || name == "monospace"@
            &&& parsed_family(s) is Serif <==> name == "serif"@
            &&& parsed_family(s) is Named ==> parsed_family(s) == FamilyView::Named(s)
        }),
{
    reveal_strlit("sans");
    reveal_strlit("sans-serif");
    reveal_strlit("mono");
    reveal_strlit("monospace");
    reveal_strlit("serif");
    assert("sans"@.len() == 4 && "mono"@.len() == 4 && "sans"@[0] == 's' && "mono"@[0] == 'm');
    assert("sans-serif"@.len() == 10 && "monospace"@.len() == 9 && "serif"@.len() == 5);
}

} // verus!
