//! What may be relied on when a script names a widget or watches one: which
//! widget a path leads to, which changes a watch reports, and how the text of
//! both is put together and taken apart.

use vstd::prelude::*;
use vstd::utf8::*;

use crate::arena::WidgetId;
use crate::chars::{dec, decimal_round_trip, is_space, trim, trim_end, trim_start};
use crate::introspect::answer::{bool_text, or_empty};
use crate::introspect::clients::{
    changes, changes_of, clicks, covers, recalled, remaining, told_lines, ClientView, HappeningView,
    SeenView,
};
use crate::introspect::path::{
    bare, bearers, below, child_at, count_role, first_named, kids, nth_role, path_at, resolved,
    step, walk, ROOT,
};
use crate::introspect::text::{
    escaped, find, indexed, is_addressable, joined, lemma_find, lemma_find_bound, split, strip_end,
    strip_start,
};
use crate::ui::access::NodeView;
use crate::ui::Ui;
use crate::widget::{role_name, role_names_differ, Role, Widget};

verus! {

// ---------------------------------------------------------------------
// pieces of text
// ---------------------------------------------------------------------

/// Whether a character is nowhere in a text.
pub open spec fn lacks(s: Seq<char>, c: char) -> bool {
    forall|i: int| 0 <= i < s.len() ==> s[i] != c
}

/// A text and a piece more come apart into the pieces of the text and that
/// one.
pub proof fn a_piece_more_is_the_last(a: Seq<char>, c: char, b: Seq<char>)
    requires
        lacks(b, c),
    ensures
        split(a + seq![c] + b, c) == split(a, c).push(b),
        split(b, c) == seq![b],
    decreases a.len(),
{
    lemma_find(b, c, b.len() as int);
    lemma_find_bound(a, c);
    let all = a + seq![c] + b;
    let i = find(a, c) as int;
    assert forall|k: int| 0 <= k < i implies all[k] != c by {
        assert(all[k] == a[k]);
    }
    lemma_find(all, c, i);
    assert(all[i] == c);
    if i < a.len() {
        let rest = a.skip(i + 1);
        a_piece_more_is_the_last(rest, c, b);
        assert(all.skip(i + 1) =~= rest + seq![c] + b);
        assert(all.take(i) =~= a.take(i));
        assert(split(all, c) =~= split(a, c).push(b));
    } else {
        assert(all.skip(i + 1) =~= b);
        assert(all.take(i) =~= a);
        assert(split(b, c) =~= seq![b]);
        assert(split(all, c) =~= seq![a] + split(b, c));
        assert(split(all, c) =~= split(a, c).push(b));
    }
}

/// Taking a text apart loses nothing: joined again, the pieces are the text,
/// and what it was taken apart at is in none of them.
pub proof fn splitting_loses_nothing(s: Seq<char>, c: char)
    ensures
        joined(split(s, c), c) == s,
        split(s, c).len() > 0,
        forall|k: int, i: int|
            0 <= k < split(s, c).len() && 0 <= i < split(s, c)[k].len() ==> #[trigger] split(
                s,
                c,
            )[k][i] != c,
    decreases s.len(),
{
    lemma_find_bound(s, c);
    let i = find(s, c) as int;
    let all = split(s, c);
    if i < s.len() {
        let rest = s.skip(i + 1);
        splitting_loses_nothing(rest, c);
        let tail = split(rest, c);
        assert(all =~= seq![s.take(i)] + tail);
        assert(all.drop_first() =~= tail);
        assert(all[0] == s.take(i));
        assert(joined(all, c) == all[0] + seq![c] + joined(tail, c));
        assert(s.take(i) + seq![c] + rest =~= s);
        assert forall|k: int, j: int| 0 <= k < all.len() && 0 <= j < all[k].len() implies #[trigger] all[k][j]
            != c by {
            if k > 0 {
                assert(all[k] == tail[k - 1]);
                assert(tail[k - 1][j] != c);
            }
        }
    } else {
        assert(all =~= seq![s]);
        assert forall|k: int, j: int| 0 <= k < all.len() && 0 <= j < all[k].len() implies #[trigger] all[k][j]
            != c by {}
    }
}

/// Stripping takes one character off both ends, as often as it stands there,
/// and nothing else.
pub proof fn stripping_takes_only_that_off(s: Seq<char>, c: char)
    ensures
        ({
            let t = strip_end(strip_start(s, c), c);
            &&& t.len() > 0 ==> t[0] != c && t.last() != c
            &&& s.len() > 0 && s[0] != c && s.last() != c ==> t == s
            &&& strip_start(seq![c] + s, c) == strip_start(s, c)
            &&& strip_end(s.push(c), c) == strip_end(s, c)
        }),
{
    lemma_strip_start(s, c);
    lemma_strip_end(strip_start(s, c), c);
    assert((seq![c] + s).drop_first() =~= s);
    assert(s.push(c).drop_last() =~= s);
}

proof fn lemma_strip_start(s: Seq<char>, c: char)
    ensures
        strip_start(s, c).len() > 0 ==> strip_start(s, c)[0] != c,
    decreases s.len(),
{
    if s.len() > 0 && s[0] == c {
        lemma_strip_start(s.drop_first(), c);
    }
}

proof fn lemma_strip_end(s: Seq<char>, c: char)
    ensures
        strip_end(s, c).len() > 0 ==> strip_end(s, c).last() != c && strip_end(s, c)[0] == s[0],
        strip_end(s, c).len() <= s.len(),
    decreases s.len(),
{
    if s.len() > 0 && s.last() == c {
        lemma_strip_end(s.drop_last(), c);
    }
}

// ---------------------------------------------------------------------
// paths
// ---------------------------------------------------------------------

proof fn lemma_first_named<W>(ui: Ui<W>, ids: Seq<WidgetId>, name: Seq<char>)
    ensures
        match first_named(ui, ids, name) {
            Some(c) => exists|k: int|
                0 <= k < ids.len() && #[trigger] ids[k] == c && ui.address(c) == Some(name)
                    && forall|j: int| 0 <= j < k ==> ui.address(#[trigger] ids[j]) != Some(name),
            None => forall|j: int| 0 <= j < ids.len() ==> ui.address(#[trigger] ids[j]) != Some(name),
        },
    decreases ids.len(),
{
    if ids.len() > 0 && ui.address(ids[0]) != Some(name) {
        let rest = ids.drop_first();
        lemma_first_named(ui, rest, name);
        match first_named(ui, rest, name) {
            Some(c) => {
                let k = choose|k: int|
                    0 <= k < rest.len() && #[trigger] rest[k] == c && ui.address(c) == Some(name)
                        && forall|j: int|
                        0 <= j < k ==> ui.address(#[trigger] rest[j]) != Some(name);
                assert(ids[k + 1] == c);
                assert forall|j: int| 0 <= j < k + 1 implies ui.address(#[trigger] ids[j]) != Some(
                    name,
                ) by {
                    if j > 0 {
                        assert(ids[j] == rest[j - 1]);
                    }
                }
            },
            None => {
                assert forall|j: int| 0 <= j < ids.len() implies ui.address(#[trigger] ids[j])
                    != Some(name) by {
                    if j > 0 {
                        assert(ids[j] == rest[j - 1]);
                    }
                }
            },
        }
    } else if ids.len() > 0 {
        assert(ids[0] == ids[0]);
    }
}

/// A name leads to the first child that bears it.
pub proof fn a_name_leads_to_the_first_that_bears_it<W: Widget>(
    ui: Ui<W>,
    parent: WidgetId,
    name: Seq<char>,
    k: int,
)
    requires
        is_addressable(name),
        0 <= k < kids(ui, parent).len(),
        ui.address(kids(ui, parent)[k]) == Some(name),
        forall|j: int| 0 <= j < k ==> ui.address(#[trigger] kids(ui, parent)[j]) != Some(name),
    ensures
        child_at(ui, parent, name) == Some(kids(ui, parent)[k]),
        step(ui, parent, name) == Some(kids(ui, parent)[k]),
{
    let ids = kids(ui, parent);
    lemma_first_named(ui, ids, name);
    let c = first_named(ui, ids, name)->0;
    let m = choose|m: int|
        0 <= m < ids.len() && #[trigger] ids[m] == c && ui.address(c) == Some(name) && forall|j: int|
            0 <= j < m ==> ui.address(#[trigger] ids[j]) != Some(name);
    assert(ui.address(ids[k]) == Some(name));
    assert(m == k) by {
        if m < k {
            assert(ui.address(ids[m]) != Some(name));
        }
    }
}

proof fn lemma_nth_role<W: Widget>(ui: Ui<W>, ids: Seq<WidgetId>, role: Role, k: int)
    requires
        0 <= k < ids.len(),
        ui.role_at(ids[k]) == Some(role),
    ensures
        nth_role(ui, ids, role_name(role), count_role(ui, ids.take(k), role)) == Some(ids[k]),
    decreases ids.len(),
{
    let n = count_role(ui, ids.take(k), role);
    if k == 0 {
        assert(ids.take(0).len() == 0);
    } else {
        let rest = ids.drop_first();
        assert(rest[k - 1] == ids[k]);
        lemma_nth_role(ui, rest, role, k - 1);
        lemma_count_front(ui, ids.take(k), role);
        assert(ids.take(k).drop_first() =~= rest.take(k - 1));
        assert(ids.take(k)[0] == ids[0]);
        if let Some(r) = ui.role_at(ids[0]) {
            if r != role {
                role_names_differ(r, role);
            }
        }
    }
}

proof fn lemma_count_front<W: Widget>(ui: Ui<W>, ids: Seq<WidgetId>, role: Role)
    requires
        ids.len() > 0,
    ensures
        count_role(ui, ids, role) == count_role(ui, ids.drop_first(), role) + if ui.role_at(ids[0])
            == Some(role) {
            1nat
        } else {
            0
        },
    decreases ids.len(),
{
    if ids.len() == 1 {
        assert(ids.drop_last() =~= ids.drop_first());
        assert(ids.last() == ids[0]);
    } else {
        lemma_count_front(ui, ids.drop_last(), role);
        assert(ids.drop_last().drop_first() =~= ids.drop_first().drop_last());
        assert(ids.drop_first().last() == ids.last());
    }
}

/// A role and a number in brackets lead to the child of that role that has
/// as many of its kind before it as the number says.
pub proof fn a_number_counts_the_children_of_a_role<W: Widget>(
    ui: Ui<W>,
    parent: WidgetId,
    role: Role,
    k: int,
)
    requires
        0 <= k < kids(ui, parent).len(),
        ui.role_at(kids(ui, parent)[k]) == Some(role),
        count_role(ui, kids(ui, parent).take(k), role) <= usize::MAX,
    ensures
        child_at(
            ui,
            parent,
            role_name(role) + seq!['['] + dec(
                count_role(ui, kids(ui, parent).take(k), role),
            ) + seq![']'],
        ) == Some(kids(ui, parent)[k]),
{
    let ids = kids(ui, parent);
    let n = count_role(ui, ids.take(k), role);
    let name = role_name(role);
    let seg = name + seq!['['] + dec(n) + seq![']'];
    let at = name.len() as int;
    crate::widget::role_names_are_letters(role);
    assert(seg[at] == '[');
    assert(!is_addressable(seg));
    assert forall|i: int| 0 <= i < at implies seg[i] != '[' by {
        assert(seg[i] == name[i]);
    }
    lemma_find(seg, '[', at);
    let rest = seg.skip(at + 1);
    assert(rest =~= dec(n) + seq![']']);
    assert(rest.drop_last() =~= dec(n));
    assert(seg.take(at) =~= name);
    decimal_round_trip(n, usize::MAX as nat);
    lemma_nth_role(ui, ids, role, k);
}

/// The number counts: among some widgets, each one of the role adds one, and
/// no other adds anything.
pub proof fn each_of_a_role_counts_one<W: Widget>(
    ui: Ui<W>,
    ids: Seq<WidgetId>,
    x: WidgetId,
    role: Role,
)
    ensures
        count_role(ui, Seq::empty(), role) == 0,
        count_role(ui, ids.push(x), role) == count_role(ui, ids, role) + if ui.role_at(x) == Some(
            role,
        ) {
            1nat
        } else {
            0
        },
{
    assert(ids.push(x).drop_last() =~= ids);
}

/// A name that no child bears leads to the one widget below that does, where
/// there is exactly one; where two bear it, it leads nowhere.
pub proof fn a_name_below_leads_there_where_it_is_the_only_one<W: Widget>(
    ui: Ui<W>,
    from: WidgetId,
    name: Seq<char>,
    x: WidgetId,
)
    requires
        is_addressable(name),
        child_at(ui, from, name) is None,
        below(ui, from).no_duplicates(),
        below(ui, from).contains(x),
        ui.address(x) == Some(name),
    ensures
        (forall|y: WidgetId| #[trigger]
            below(ui, from).contains(y) && ui.address(y) == Some(name) ==> y == x) ==> step(
            ui,
            from,
            name,
        ) == Some(x),
        (exists|y: WidgetId| #[trigger]
            below(ui, from).contains(y) && ui.address(y) == Some(name) && y != x) ==> step(
            ui,
            from,
            name,
        ) is None,
{
    let ids = below(ui, from);
    let f = |id: WidgetId| ui.address(id) == Some(name);
    let found = bearers(ui, ids, name);
    assert(found == ids.filter(f));
    ids.unique_seq_to_set();
    assert(f(x));
    assert(found.contains(x)) by {
        let i = choose|i: int| 0 <= i < ids.len() && ids[i] == x;
        ids.filter_lemma(f);
        assert(found.contains(ids[i]));
    }
    lemma_filter_distinct(ids, f);
    if forall|y: WidgetId| #[trigger]
        ids.contains(y) && ui.address(y) == Some(name) ==> y == x {
        assert forall|i: int| 0 <= i < found.len() implies found[i] == x by {
            assert(found.contains(found[i]));
            ids.filter_lemma(f);
            assert(f(found[i]));
            assert(ids.contains(found[i]));
        }
        if found.len() > 1 {
            assert(found[0] != found[1]);
        }
        assert(found.len() == 1);
        assert(found[0] == x);
    }
    if exists|y: WidgetId| #[trigger]
        ids.contains(y) && ui.address(y) == Some(name) && y != x {
        let y = choose|y: WidgetId| #[trigger]
            ids.contains(y) && ui.address(y) == Some(name) && y != x;
        ids.filter_lemma(f);
        let i = choose|i: int| 0 <= i < ids.len() && ids[i] == y;
        assert(f(ids[i]));
        assert(found.contains(y));
        if found.len() == 1 {
            assert(found[0] == x);
            assert(found[0] == y);
        }
    }
}

proof fn lemma_filter_distinct(ids: Seq<WidgetId>, f: spec_fn(WidgetId) -> bool)
    requires
        ids.no_duplicates(),
    ensures
        ids.filter(f).no_duplicates(),
        forall|x: WidgetId| ids.filter(f).contains(x) ==> #[trigger] ids.contains(x),
    decreases ids.len(),
{
    reveal(Seq::filter);
    if ids.len() > 0 {
        let head = ids.drop_last();
        assert(head.no_duplicates());
        lemma_filter_distinct(head, f);
        let a = head.filter(f);
        let b = ids.filter(f);
        assert forall|x: WidgetId| b.contains(x) implies #[trigger] ids.contains(x) by {
            let k = choose|k: int| 0 <= k < b.len() && b[k] == x;
            if k < a.len() {
                assert(a[k] == x);
                assert(a.contains(x));
                assert(head.contains(x));
                let i = choose|i: int| 0 <= i < head.len() && head[i] == x;
                assert(ids[i] == x);
            } else {
                assert(ids[ids.len() - 1] == x);
            }
        }
        if f(ids.last()) && a.contains(ids.last()) {
            assert(head.contains(ids.last()));
            let i = choose|i: int| 0 <= i < head.len() && head[i] == ids.last();
            assert(ids[i] == ids[ids.len() - 1]);
        }
    }
}

/// A path is walked part by part: what it leads to is what its last part
/// leads to from what the rest leads to.
pub proof fn a_path_is_walked_part_by_part<W: Widget>(
    ui: Ui<W>,
    at: WidgetId,
    segs: Seq<Seq<char>>,
    seg: Seq<char>,
)
    ensures
        walk(ui, at, Seq::empty()) == Some(at),
        walk(ui, at, segs.push(seg)) == (match walk(ui, at, segs) {
            Some(id) => step(ui, id, seg),
            None => None,
        }),
    decreases segs.len(),
{
    let all = segs.push(seg);
    if segs.len() == 0 {
        assert(all.drop_first() =~= Seq::<Seq<char>>::empty());
        assert(all[0] == seg);
        if let Some(c) = step(ui, at, seg) {
            assert(walk(ui, c, all.drop_first()) == Some(c));
        }
    } else {
        assert(all.drop_first() =~= segs.drop_first().push(seg));
        assert(all[0] == segs[0]);
        if let Some(c) = step(ui, at, segs[0]) {
            a_path_is_walked_part_by_part(ui, c, segs.drop_first(), seg);
        }
    }
}

/// Slashes around a path do not matter, and neither does white space; and an
/// empty path, or the root's own name, is the root.
pub proof fn the_root_has_a_path<W: Widget>(ui: Ui<W>)
    ensures
        resolved(ui, Seq::empty()) == ui@.root,
        resolved(ui, seq!['/']) == ui@.root,
        resolved(ui, ROOT@) == ui@.root,
{
    let e = Seq::<char>::empty();
    assert(trim(e) =~= e);
    assert(strip_end(strip_start(e, '/'), '/') =~= e);
    let s = seq!['/'];
    assert(trim(s) =~= s);
    assert(s.drop_first() =~= e);
    assert(strip_start(s, '/') =~= e);
    reveal_strlit("window");
    let r = ROOT@;
    assert(r =~= seq!['w', 'i', 'n', 'd', 'o', 'w']);
    assert(trim(r) =~= r);
    assert(strip_end(strip_start(r, '/'), '/') =~= r);
    lemma_find(r, '/', r.len() as int);
    assert(split(r, '/') =~= seq![r]);
    assert(split(r, '/').drop_first() =~= Seq::<Seq<char>>::empty());
}

// ---------------------------------------------------------------------
// watches
// ---------------------------------------------------------------------

/// A watch covers the path itself and everything below it, and `*` covers
/// everything. It does not cover a path that only goes on from it in the same
/// part, nor anything above it.
pub proof fn a_watch_covers_what_is_below(watch: Seq<char>, rest: Seq<char>, c: char)
    ensures
        covers(watch, watch),
        covers(watch, watch + seq!['/'] + rest),
        covers("*"@, rest),
        watch != "*"@ && c != '/' ==> !covers(watch, watch + seq![c] + rest),
        watch + seq![c] + rest != "*"@ ==> !covers(watch + seq![c] + rest, watch),
{
    let p = watch + seq!['/'] + rest;
    assert(p.take(watch.len() as int) =~= watch);
    let q = watch + seq![c] + rest;
    assert(q[watch.len() as int] == c);
    assert(q.len() > watch.len());
}

proof fn lemma_recalled(seen: Seq<SeenView>, k: int)
    requires
        0 <= k < seen.len(),
        forall|j: int| 0 <= j < k ==> (#[trigger] seen[j]).id != seen[k].id,
    ensures
        recalled(seen, seen[k].id) == Some(seen[k]),
    decreases seen.len(),
{
    if k > 0 {
        assert(seen[0].id != seen[k].id);
        let rest = seen.drop_first();
        assert(rest[k - 1] == seen[k]);
        assert forall|j: int| 0 <= j < k - 1 implies (#[trigger] rest[j]).id != rest[k - 1].id by {
            assert(rest[j] == seen[j + 1]);
        }
        lemma_recalled(rest, k - 1);
    }
}

/// A watch reports a widget's value where it is another than before, and its
/// focus where that is, and nothing where neither is; a widget that was not
/// there before, or that no path leads to, is not reported.
pub proof fn a_change_is_reported_once<W: Widget>(
    ui: Ui<W>,
    n: NodeView,
    seen: Seq<SeenView>,
    k: int,
    path: Seq<char>,
)
    requires
        0 <= k < seen.len(),
        seen[k].id == n.id,
        forall|j: int| 0 <= j < k ==> (#[trigger] seen[j]).id != n.id,
        path_at(ui, n.id) == Some(path),
    ensures
        ({
            let out = changes_of(ui, n, seen);
            let was = seen[k];
            let value = or_empty(n.access.value);
            let told_value = HappeningView { path, kind: "value"@, value };
            let told_focus = HappeningView { path, kind: "focus"@, value: bool_text(n.focused) };
            &&& was.value == value && was.focused == n.focused ==> out.len() == 0
            &&& was.value != value && was.focused == n.focused ==> out == seq![told_value]
            &&& was.value == value && was.focused != n.focused ==> out == seq![told_focus]
            &&& was.value != value && was.focused != n.focused ==> out == seq![
                told_value,
                told_focus,
            ]
        }),
{
    lemma_recalled(seen, k);
    let out = changes_of(ui, n, seen);
    let was = seen[k];
    let value = or_empty(n.access.value);
    let told_value = HappeningView { path, kind: "value"@, value };
    let told_focus = HappeningView { path, kind: "focus"@, value: bool_text(n.focused) };
    if was.value != value && was.focused == n.focused {
        assert(out =~= seq![told_value]);
    } else if was.value == value && was.focused != n.focused {
        assert(out =~= seq![told_focus]);
    } else if was.value != value && was.focused != n.focused {
        assert(out =~= seq![told_value, told_focus]);
    }
}

/// What is looked at is reported in order, and a widget that was not seen
/// before has nothing to report.
pub proof fn changes_are_reported_in_order<W: Widget>(
    ui: Ui<W>,
    nodes: Seq<NodeView>,
    n: NodeView,
    seen: Seq<SeenView>,
)
    ensures
        changes(ui, Seq::empty(), seen).len() == 0,
        changes(ui, nodes.push(n), seen) == changes(ui, nodes, seen) + changes_of(ui, n, seen),
        (forall|j: int| 0 <= j < seen.len() ==> (#[trigger] seen[j]).id != n.id) ==> changes_of(
            ui,
            n,
            seen,
        ).len() == 0,
        path_at(ui, n.id) is None ==> changes_of(ui, n, seen).len() == 0,
{
    assert(nodes.push(n).drop_last() =~= nodes);
    if forall|j: int| 0 <= j < seen.len() ==> (#[trigger] seen[j]).id != n.id {
        lemma_not_recalled(seen, n.id);
    }
}

proof fn lemma_not_recalled(seen: Seq<SeenView>, id: WidgetId)
    requires
        forall|j: int| 0 <= j < seen.len() ==> (#[trigger] seen[j]).id != id,
    ensures
        recalled(seen, id) is None,
    decreases seen.len(),
{
    if seen.len() > 0 {
        assert(seen[0].id != id);
        let rest = seen.drop_first();
        assert forall|j: int| 0 <= j < rest.len() implies (#[trigger] rest[j]).id != id by {
            assert(rest[j] == seen[j + 1]);
        }
        lemma_not_recalled(rest, id);
    }
}

/// Each activation of a widget that a path leads to is reported as a click,
/// in order, and no other is.
pub proof fn an_activation_is_a_click<W: Widget>(ui: Ui<W>, ids: Seq<WidgetId>, x: WidgetId)
    ensures
        clicks(ui, Seq::empty()).len() == 0,
        path_at(ui, x) matches Some(path) ==> clicks(ui, ids.push(x)) == clicks(ui, ids).push(
            HappeningView { path, kind: "click"@, value: Seq::empty() },
        ),
        path_at(ui, x) is None ==> clicks(ui, ids.push(x)) == clicks(ui, ids),
{
    assert(ids.push(x).drop_last() =~= ids);
}

/// What a client is told: a line for each event that its watch covers, in
/// order, and nothing for one that it does not.
pub proof fn a_client_is_told_what_it_watches(
    watch: Seq<char>,
    events: Seq<HappeningView>,
    e: HappeningView,
)
    ensures
        told_lines(watch, Seq::empty()).len() == 0,
        covers(watch, e.path) ==> told_lines(watch, events.push(e)) == told_lines(watch, events)
            + joined(seq!["event"@, escaped(e.path), e.kind, escaped(e.value)], ' ') + seq!['\n'],
        !covers(watch, e.path) ==> told_lines(watch, events.push(e)) == told_lines(watch, events),
{
    assert(events.push(e).drop_last() =~= events);
    let parts = seq!["event"@, escaped(e.path), e.kind, escaped(e.value)];
    let p1 = parts.drop_first();
    let p2 = p1.drop_first();
    let p3 = p2.drop_first();
    assert(p1 =~= seq![escaped(e.path), e.kind, escaped(e.value)]);
    assert(p2 =~= seq![e.kind, escaped(e.value)]);
    assert(p3 =~= seq![escaped(e.value)]);
    assert(joined(p3, ' ') == escaped(e.value));
    assert(joined(p2, ' ') == e.kind + seq![' '] + escaped(e.value));
    assert(joined(p1, ' ') == escaped(e.path) + seq![' '] + joined(p2, ' '));
    assert(joined(parts, ' ') == "event"@ + seq![' '] + joined(p1, ' '));
    reveal_strlit("event");
    reveal_strlit("event ");
    assert("event"@ + seq![' '] =~= "event "@);
    assert(told_lines(watch, events.push(e)) =~= told_lines(watch, events) + (if covers(
        watch,
        e.path,
    ) {
        joined(parts, ' ') + seq!['\n']
    } else {
        Seq::empty()
    }));
}

/// Clients that are done go, and the others stay, in order.
pub proof fn only_those_done_go<T>(s: Seq<ClientView<T>>, c: ClientView<T>)
    ensures
        remaining(Seq::<ClientView<T>>::empty()).len() == 0,
        c.done ==> remaining(s.push(c)) == remaining(s),
        !c.done ==> remaining(s.push(c)) == remaining(s).push(c),
{
    assert(s.push(c).drop_last() =~= s);
}

proof fn lemma_trim_push(s: Seq<char>, c: char)
    requires
        s.len() > 0,
        !is_space(s.last()),
        !is_space(c),
    ensures
        trim(s.push(c)) == trim(s).push(c),
    decreases s.len(),
{
    let all = s.push(c);
    assert(trim_start(all) == trim_start(s).push(c) && trim_start(s).len() > 0
        && trim_start(s).last() == s.last()) by {
        lemma_trim_start_push(s, c);
    }
    assert(trim_end(trim_start(s)) == trim_start(s));
    assert(trim_end(trim_start(all)) == trim_start(all));
}

proof fn lemma_trim_start_push(s: Seq<char>, c: char)
    requires
        s.len() > 0,
        !is_space(s.last()),
        !is_space(c),
    ensures
        trim_start(s.push(c)) == trim_start(s).push(c),
        trim_start(s).len() > 0,
        trim_start(s).last() == s.last(),
    decreases s.len(),
{
    let all = s.push(c);
    assert(all[0] == s[0]);
    if is_space(s[0]) {
        let rest = s.drop_first();
        assert(rest.last() == s.last());
        assert(all.drop_first() =~= rest.push(c));
        lemma_trim_start_push(rest, c);
    }
}

proof fn lemma_strip_start_push(s: Seq<char>, c: char)
    ensures
        strip_start(s.push(c), c) == (if strip_start(s, c).len() == 0 {
            Seq::empty()
        } else {
            strip_start(s, c).push(c)
        }),
    decreases s.len(),
{
    let all = s.push(c);
    if s.len() == 0 {
        assert(all.drop_first() =~= s);
        assert(strip_start(all.drop_first(), c) =~= Seq::empty());
    } else {
        assert(all[0] == s[0]);
        if s[0] == c {
            assert(all.drop_first() =~= s.drop_first().push(c));
            lemma_strip_start_push(s.drop_first(), c);
        }
    }
}

/// A path leads to the same widget with a slash before it, with one behind it,
/// and with a blank before it; and one of slashes alone to the root.
pub proof fn slashes_around_a_path_change_nothing<W: Widget>(ui: Ui<W>, path: Seq<char>)
    requires
        path.len() > 0,
        !is_space(path.last()),
        !is_space(path[0]),
    ensures
        resolved(ui, path.push('/')) == resolved(ui, path),
        resolved(ui, seq!['/'] + path) == resolved(ui, path),
        resolved(ui, seq![' '] + path) == resolved(ui, path),
        resolved(ui, seq!['/']) == ui@.root,
        resolved(ui, Seq::empty()) == ui@.root,
{
    lemma_trim_push(path, '/');
    let t = trim(path);
    lemma_strip_start_push(t, '/');
    let u = strip_start(t, '/');
    if u.len() > 0 {
        assert(u.push('/').drop_last() =~= u);
    } else {
        assert(u =~= Seq::empty());
    }
    assert(bare(path.push('/')) == bare(path));
    let lead = seq!['/'] + path;
    assert(trim_start(path) == path && trim_end(path) == path);
    assert(lead[0] == '/' && lead.last() == path.last());
    assert(trim_start(lead) == lead && trim_end(lead) == lead);
    assert(lead.drop_first() =~= path);
    assert(bare(lead) == bare(path));
    let blank = seq![' '] + path;
    assert(blank[0] == ' ');
    assert(blank.drop_first() =~= path);
    assert(bare(blank) == bare(path));
    let one = seq!['/'];
    assert(one.drop_first() =~= Seq::empty());
    assert(trim_start(one) == one && trim_end(one) == one);
    assert(strip_start(one.drop_first(), '/') =~= Seq::empty());
    assert(bare(one).len() == 0);
}

// ---------------------------------------------------------------------
// names
// ---------------------------------------------------------------------

proof fn lemma_bytes_add(a: Seq<char>, b: Seq<char>)
    ensures
        encode_utf8(a + b).len() == encode_utf8(a).len() + encode_utf8(b).len(),
    decreases a.len(),
{
    if a.len() == 0 {
        assert(a + b =~= b);
    } else {
        assert((a + b).drop_first() =~= a.drop_first() + b);
        assert((a + b)[0] == a[0]);
        lemma_bytes_add(a.drop_first(), b);
    }
}

/// A name can stand in a path unless it holds white space, a slash or a
/// bracket, wherever that is, or takes more than 64 bytes; two such names make
/// one together where there is room for both.
pub proof fn a_name_can_stand_in_a_path(a: Seq<char>, c: char, b: Seq<char>)
    ensures
        is_space(c) || c == '/' || c == '[' || c == ']' ==> !is_addressable(a + seq![c] + b),
        encode_utf8(a).len() > 64 ==> !is_addressable(a),
        a.len() == 0 ==> !is_addressable(a),
        !is_space(c) && c != '/' && c != '[' && c != ']' ==> is_addressable(seq![c]),
        is_addressable(a) && is_addressable(b) && encode_utf8(a).len() + encode_utf8(b).len() <= 64
            ==> is_addressable(a + b),
{
    let all = a + seq![c] + b;
    assert(all[a.len() as int] == c);
    let one = seq![c];
    assert(one.drop_first() =~= Seq::empty());
    assert(encode_utf8(one) =~= encode_scalar(c as u32) + encode_utf8(one.drop_first()));
    assert(encode_utf8(one.drop_first()).len() == 0);
    lemma_bytes_add(a, b);
}

/// A segment without a bracket stands for the first of its kind; one whose
/// bracket is not closed at its end stands for nothing.
pub proof fn a_bracket_is_closed_at_the_end(seg: Seq<char>)
    ensures
        lacks(seg, '[') ==> indexed(seg) == Some((seg, 0nat)),
        !lacks(seg, '[') && seg.last() != ']' ==> indexed(seg) is None,
{
    lemma_find_bound(seg, '[');
    let i = find(seg, '[') as int;
    if lacks(seg, '[') {
        lemma_find(seg, '[', seg.len() as int);
    } else {
        let k = choose|k: int| 0 <= k < seg.len() && seg[k] == '[';
        assert(i < seg.len());
        let rest = seg.skip(i + 1);
        if rest.len() > 0 {
            assert(rest.last() == seg.last());
        }
    }
}

} // verus!
