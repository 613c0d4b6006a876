//! Paths: how a widget is named from outside, and how a name finds it.

use vstd::prelude::*;

use crate::arena::WidgetId;
use crate::chars::{
    chars_of, dec, decimal, decimal_round_trip, is_digit, is_space, lemma_dec, same, string_of,
    text_eq, trim, trimmed,
};
use crate::introspect::text::{
    addressable, chars_view, indexed, is_addressable, join, joined, lemma_find, parse_indexed,
    split, split_at, strings_view, strip_end, strip_start, stripped,
};
use crate::tree::{lemma_ancestors, lemma_subtree, linked};
use crate::ui::Ui;
use crate::widget::{role_name, role_names_are_letters, role_names_differ, Role, Widget};

verus! {

/// The root widget's path segment.
pub const ROOT: &'static str = "window";

// ---------------------------------------------------------------------
// from a widget to its path
// ---------------------------------------------------------------------

/// How many of `ids` have the role `role`.
pub open spec fn count_role<W: Widget>(ui: Ui<W>, ids: Seq<WidgetId>, role: Role) -> nat
    decreases ids.len(),
{
    if ids.len() == 0 {
        0
    } else {
        count_role(ui, ids.drop_last(), role) + if ui.role_at(ids.last()) == Some(role) {
            1nat
        } else {
            0
        }
    }
}

/// The children of a widget; a stale id has none.
pub open spec fn kids<W>(ui: Ui<W>, id: WidgetId) -> Seq<WidgetId> {
    if ui@.nodes.dom().contains(id) {
        ui@.nodes[id].state.children
    } else {
        Seq::empty()
    }
}

/// `role[i]`.
pub open spec fn indexed_segment(role: Role, i: nat) -> Seq<char> {
    role_name(role) + seq!['['] + dec(i) + seq![']']
}

/// One path segment: `child`'s name, or `role[i]` among `parent`'s children
/// of the same role. A widget that is out of its slot has none.
pub open spec fn segment<W: Widget>(ui: Ui<W>, parent: WidgetId, child: WidgetId) -> Option<
    Seq<char>,
> {
    match ui.role_at(child) {
        None => None,
        Some(role) => match ui.address(child) {
            Some(name) if is_addressable(name) => Some(name),
            _ => {
                let ids = kids(ui, parent);
                if ids.contains(child) {
                    Some(
                        indexed_segment(
                            role,
                            count_role(ui, ids.take(ids.index_of_first(child)->0), role),
                        ),
                    )
                } else {
                    None
                }
            },
        },
    }
}

/// The segments from the root down to the first of `chain`, which climbs
/// from parent to parent.
pub open spec fn segments<W: Widget>(ui: Ui<W>, root: WidgetId, chain: Seq<WidgetId>) -> Option<
    Seq<Seq<char>>,
>
    decreases chain.len(),
{
    if chain.len() == 0 {
        None
    } else if chain[0] == root {
        Some(seq![ROOT@])
    } else if chain.len() == 1 {
        None
    } else {
        match (segment(ui, chain[1], chain[0]), segments(ui, root, chain.drop_first())) {
            (Some(last), Some(up)) => Some(up.push(last)),
            _ => None,
        }
    }
}

/// The path of `id`: `window` for the root, and one segment more for each
/// step down. A widget that is not under the root has none.
pub open spec fn path_at<W: Widget>(ui: Ui<W>, id: WidgetId) -> Option<Seq<char>> {
    match ui@.root {
        None => None,
        Some(root) => match segments(ui, root, climbed(ui, id)) {
            Some(parts) => Some(joined(parts, '/')),
            None => None,
        },
    }
}

/// `id` and its ancestors, nearest first; a stale id stands alone.
pub open spec fn climbed<W>(ui: Ui<W>, id: WidgetId) -> Seq<WidgetId> {
    if ui@.nodes.dom().contains(id) {
        seq![id] + ui.ancestors(id)
    } else {
        seq![id]
    }
}

fn segment_of<W: Widget>(ui: &Ui<W>, parent: WidgetId, child: WidgetId) -> (r: Option<String>)
    ensures
        match r {
            Some(s) => segment(*ui, parent, child) == Some(s@),
            None => segment(*ui, parent, child) is None,
        },
{
    let role = match ui.role(child) {
        Ok(r) => r,
        Err(_) => {
            return None;
        },
    };
    if let Some(name) = ui.address_name(child) {
        if addressable(name.as_str()) {
            return Some(name);
        }
    }
    let ids = ui.children(parent);
    let mut index: usize = 0;
    let mut i: usize = 0;
    while i < ids.len()
        invariant
            i <= ids.len(),
            ids@ == kids(*ui, parent),
            index <= i,
            index == count_role(*ui, ids@.take(i as int), role),
            forall|k: int| 0 <= k < i ==> ids@[k] != child,
            ui.role_at(child) == Some(role),
            !(ui.address(child) matches Some(n) && is_addressable(n)),
        decreases ids.len() - i,
    {
        let c = ids[i];
        if c == child {
            proof {
                ids@.index_of_first_ensures(child);
                let k = ids@.index_of_first(child)->0;
                assert(ids@[i as int] == child);
                assert(k == i);
            }
            let mut out = role.name().to_owned();
            out.push('[');
            let digits = decimal(index as u64);
            out.append(digits.as_str());
            out.push(']');
            assert(out@ =~= indexed_segment(role, index as nat));
            return Some(out);
        }
        assert(ids@.take(i + 1).drop_last() =~= ids@.take(i as int));
        match ui.role(c) {
            Ok(r) => {
                if r == role {
                    index += 1;
                }
            },
            Err(_) => {},
        }
        i += 1;
    }
    None
}

proof fn lemma_filter_grows(s: Seq<WidgetId>, pick: spec_fn(WidgetId) -> bool, i: int)
    requires
        0 <= i <= s.len(),
    ensures
        s.take(i).filter(pick).len() <= s.filter(pick).len(),
    decreases s.len(),
{
    if i < s.len() {
        let head = s.drop_last();
        assert(s =~= head.push(s.last()));
        head.lemma_filter_push(s.last(), pick);
        lemma_filter_grows(head, pick, i);
        assert(head.take(i) =~= s.take(i));
    } else {
        assert(s.take(i) =~= s);
    }
}

proof fn lemma_climbed<W>(ui: Ui<W>, id: WidgetId)
    requires
        ui.wf(),
    ensures
        match (if ui@.nodes.dom().contains(id) {
            ui@.nodes[id].state.parent
        } else {
            None
        }) {
            Some(p) => climbed(ui, id) == seq![id] + climbed(ui, p),
            None => climbed(ui, id) == seq![id],
        },
{
    ui.tree_shape();
    if ui@.nodes.dom().contains(id) {
        lemma_ancestors(ui@.nodes, ui.rank(), ui.top(), id);
        match ui@.nodes[id].state.parent {
            Some(p) => {
                assert(climbed(ui, id) =~= seq![id] + climbed(ui, p));
            },
            None => {
                assert(climbed(ui, id) =~= seq![id]);
            },
        }
    }
}

fn segments_of<W: Widget>(ui: &Ui<W>, root: WidgetId, id: WidgetId) -> (r: Option<Vec<String>>)
    requires
        ui.wf(),
    ensures
        match r {
            Some(parts) => segments(*ui, root, climbed(*ui, id)) == Some(strings_view(parts@)),
            None => segments(*ui, root, climbed(*ui, id)) is None,
        },
    decreases climbed(*ui, id).len(),
{
    proof {
        lemma_climbed(*ui, id);
    }
    if id == root {
        let mut out: Vec<String> = Vec::new();
        out.push(ROOT.to_owned());
        assert(strings_view(out@) =~= seq![ROOT@]);
        return Some(out);
    }
    match ui.parent(id) {
        None => None,
        Some(p) => {
            let ghost chain = climbed(*ui, id);
            assert(chain.drop_first() =~= climbed(*ui, p));
            assert(chain[1] == p);
            let last = segment_of(ui, p, id);
            let up = segments_of(ui, root, p);
            match (last, up) {
                (Some(s), Some(v)) => {
                    let mut v = v;
                    let ghost before = v@;
                    v.push(s);
                    assert(strings_view(v@) =~= strings_view(before).push(s@));
                    Some(v)
                },
                _ => None,
            }
        },
    }
}

/// The path of `id` in `ui`'s tree, or `None` if the widget is not under
/// the root.
///
/// The root is always `window`; below it a widget with an addressable name
/// is that name, and one without is `role[i]` counting among the siblings
/// of the same role.
pub fn path_of<W: Widget>(ui: &Ui<W>, id: WidgetId) -> (r: Option<String>)
    requires
        ui.wf(),
    ensures
        match r {
            Some(s) => path_at(*ui, id) == Some(s@),
            None => path_at(*ui, id) is None,
        },
{
    match ui.root() {
        None => None,
        Some(root) => match segments_of(ui, root, id) {
            Some(parts) => Some(join(&parts, '/')),
            None => None,
        },
    }
}

// ---------------------------------------------------------------------
// from a path to its widget
// ---------------------------------------------------------------------

/// The first of `ids` with the name `name`.
pub open spec fn first_named<W>(ui: Ui<W>, ids: Seq<WidgetId>, name: Seq<char>) -> Option<WidgetId>
    decreases ids.len(),
{
    if ids.len() == 0 {
        None
    } else if ui.address(ids[0]) == Some(name) {
        Some(ids[0])
    } else {
        first_named(ui, ids.drop_first(), name)
    }
}

/// The one of `ids` that `n` others of the role called `role` come before.
pub open spec fn nth_role<W: Widget>(
    ui: Ui<W>,
    ids: Seq<WidgetId>,
    role: Seq<char>,
    n: nat,
) -> Option<WidgetId>
    decreases ids.len(),
{
    if ids.len() == 0 {
        None
    } else if ui.role_at(ids[0]) matches Some(r) && role_name(r) == role {
        if n == 0 {
            Some(ids[0])
        } else {
            nth_role(ui, ids.drop_first(), role, (n - 1) as nat)
        }
    } else {
        nth_role(ui, ids.drop_first(), role, n)
    }
}

/// The child that a segment names: by name first, and then as `role[i]`.
pub open spec fn child_at<W: Widget>(ui: Ui<W>, parent: WidgetId, seg: Seq<char>) -> Option<
    WidgetId,
> {
    let ids = kids(ui, parent);
    if is_addressable(seg) && first_named(ui, ids, seg) is Some {
        first_named(ui, ids, seg)
    } else {
        match indexed(seg) {
            Some(p) => nth_role(ui, ids, p.0, p.1),
            None => None,
        }
    }
}

/// Everything under `id`, but not `id` itself, in pre-order.
pub open spec fn below<W>(ui: Ui<W>, id: WidgetId) -> Seq<WidgetId> {
    if ui@.nodes.dom().contains(id) {
        ui.subtree(id).drop_first()
    } else {
        Seq::empty()
    }
}

/// The widgets of `ids` with the name `name`.
pub open spec fn bearers<W>(ui: Ui<W>, ids: Seq<WidgetId>, name: Seq<char>) -> Seq<WidgetId> {
    ids.filter(|id: WidgetId| ui.address(id) == Some(name))
}

/// The widget under `from` that alone has the name `name`; a name that is
/// used twice names neither.
pub open spec fn sole_named<W>(ui: Ui<W>, from: WidgetId, name: Seq<char>) -> Option<WidgetId> {
    let found = bearers(ui, below(ui, from), name);
    if is_addressable(name) && found.len() == 1 {
        Some(found[0])
    } else {
        None
    }
}

/// Where one segment leads from `at`.
pub open spec fn step<W: Widget>(ui: Ui<W>, at: WidgetId, seg: Seq<char>) -> Option<WidgetId> {
    match child_at(ui, at, seg) {
        Some(c) => Some(c),
        None => sole_named(ui, at, seg),
    }
}

/// Where a run of segments leads from `at`.
pub open spec fn walk<W: Widget>(ui: Ui<W>, at: WidgetId, segs: Seq<Seq<char>>) -> Option<WidgetId>
    decreases segs.len(),
{
    if segs.len() == 0 {
        Some(at)
    } else {
        match step(ui, at, segs[0]) {
            Some(c) => walk(ui, c, segs.drop_first()),
            None => None,
        }
    }
}

/// A path without the white space and then the slashes around it.
pub open spec fn bare(path: Seq<char>) -> Seq<char> {
    strip_end(strip_start(trim(path), '/'), '/')
}

/// The widget that a path names. A path may leave out the leading `window`,
/// and one that names nothing else names the root.
pub open spec fn resolved<W: Widget>(ui: Ui<W>, path: Seq<char>) -> Option<WidgetId> {
    match ui@.root {
        None => None,
        Some(root) => {
            let p = bare(path);
            if p.len() == 0 {
                Some(root)
            } else {
                let segs = split(p, '/');
                if segs[0] == ROOT@ {
                    walk(ui, root, segs.drop_first())
                } else {
                    walk(ui, root, segs)
                }
            }
        },
    }
}

fn child_by_segment<W: Widget>(ui: &Ui<W>, parent: WidgetId, seg: &str) -> (r: Option<WidgetId>)
    ensures
        r == child_at(*ui, parent, seg@),
{
    let ids = ui.children(parent);
    assert(ids@.skip(0) =~= ids@);
    if addressable(seg) {
        let mut i: usize = 0;
        while i < ids.len()
            invariant
                i <= ids.len(),
                is_addressable(seg@),
                ids@ == kids(*ui, parent),
                first_named(*ui, ids@, seg@) == first_named(*ui, ids@.skip(i as int), seg@),
            decreases ids.len() - i,
        {
            assert(ids@.skip(i as int)[0] == ids@[i as int]);
            assert(ids@.skip(i as int).drop_first() =~= ids@.skip(i + 1));
            if let Some(name) = ui.address_name(ids[i]) {
                if text_eq(name.as_str(), seg) {
                    return Some(ids[i]);
                }
            }
            i += 1;
        }
    }
    let (role, index) = match parse_indexed(seg) {
        Some(p) => p,
        None => {
            return None;
        },
    };
    let mut left: usize = index;
    let mut i: usize = 0;
    while i < ids.len()
        invariant
            i <= ids.len(),
            ids@ == kids(*ui, parent),
            !(is_addressable(seg@) && first_named(*ui, ids@, seg@) is Some),
            indexed(seg@) == Some((role@, index as nat)),
            nth_role(*ui, ids@, role@, index as nat) == nth_role(
                *ui,
                ids@.skip(i as int),
                role@,
                left as nat,
            ),
        decreases ids.len() - i,
    {
        assert(ids@.skip(i as int)[0] == ids@[i as int]);
        assert(ids@.skip(i as int).drop_first() =~= ids@.skip(i + 1));
        match ui.role(ids[i]) {
            Ok(r) => {
                if text_eq(r.name(), role.as_str()) {
                    if left == 0 {
                        return Some(ids[i]);
                    }
                    left -= 1;
                }
            },
            Err(_) => {},
        }
        i += 1;
    }
    None
}

fn unique_in_subtree<W: Widget>(ui: &Ui<W>, from: WidgetId, name: &str) -> (r: Option<WidgetId>)
    requires
        ui.wf(),
    ensures
        r == sole_named(*ui, from, name@),
{
    if !addressable(name) || !ui.is_live(from) {
        assert(!ui@.nodes.dom().contains(from) ==> bearers(*ui, below(*ui, from), name@).len() == 0)
            by {
            reveal(Seq::filter);
        }
        return None;
    }
    let ids = ui.collect_subtree(from);
    let ghost all = below(*ui, from);
    let ghost pick = |id: WidgetId| ui.address(id) == Some(name@);
    proof {
        ui.tree_shape();
        lemma_subtree(ui@.nodes, ui.rank(), ui.top(), from);
        assert(all.take(0) =~= Seq::<WidgetId>::empty());
        reveal(Seq::filter);
    }
    let mut found: Option<WidgetId> = None;
    let mut i: usize = 1;
    while i < ids.len()
        invariant
            1 <= i <= ids.len(),
            ids@.len() == all.len() + 1,
            all == ids@.drop_first(),
            all == below(*ui, from),
            pick == (|id: WidgetId| ui.address(id) == Some(name@)),
            is_addressable(name@),
            found == (if all.take(i - 1).filter(pick).len() == 1 {
                Some(all.take(i - 1).filter(pick)[0])
            } else {
                None
            }),
            all.take(i - 1).filter(pick).len() <= 1,
        decreases ids.len() - i,
    {
        let id = ids[i];
        proof {
            assert(all[i - 1] == id);
            assert(all.take(i as int) =~= all.take(i - 1).push(id));
            all.take(i - 1).lemma_filter_push(id, pick);
        }
        let mine = match ui.address_name(id) {
            Some(n) => text_eq(n.as_str(), name),
            None => false,
        };
        assert(mine == pick(id));
        if mine {
            if found.is_some() {
                proof {
                    lemma_filter_grows(all, pick, i as int);
                    assert(all.filter(pick) =~= bearers(*ui, all, name@));
                }
                return None;
            }
            found = Some(id);
        }
        i += 1;
    }
    proof {
        assert(all.take(i - 1) =~= all);
        assert(all.filter(pick) =~= bearers(*ui, all, name@));
    }
    found
}

fn step_to<W: Widget>(ui: &Ui<W>, at: WidgetId, seg: &str) -> (r: Option<WidgetId>)
    requires
        ui.wf(),
    ensures
        r == step(*ui, at, seg@),
{
    match child_by_segment(ui, at, seg) {
        Some(c) => Some(c),
        None => unique_in_subtree(ui, at, seg),
    }
}

/// Resolve a path against the live tree.
///
/// An empty path, `window` and `/` all name the root. Names are matched
/// before `role[i]` segments, so `window/ok` finds the widget named `ok`
/// whatever its role index would have been.
///
/// A segment that matches no child is then looked for anywhere below, by
/// name, provided the name occurs exactly once there: a name that is used
/// twice resolves to neither.
pub fn resolve<W: Widget>(ui: &Ui<W>, path: &str) -> (r: Option<WidgetId>)
    requires
        ui.wf(),
    ensures
        r == resolved(*ui, path@),
{
    let root = match ui.root() {
        None => {
            return None;
        },
        Some(r) => r,
    };
    let chars = chars_of(path);
    let clean = trimmed(chars.as_slice());
    let p = stripped(clean.as_slice(), '/');
    if p.len() == 0 {
        return Some(root);
    }
    let segs = split_at(p.as_slice(), '/');
    let ghost all = chars_view(segs@);
    let mut i: usize = 0;
    assert(all.len() > 0);
    let window = chars_of(ROOT);
    if same(segs[0].as_slice(), window.as_slice()) {
        i = 1;
    }
    let ghost want = walk(*ui, root, all.skip(i as int));
    proof {
        assert(all[0] == segs@[0]@);
        assert(all.skip(0) =~= all);
        assert(all.skip(1) =~= all.drop_first());
        assert(want == resolved(*ui, path@));
    }
    let mut cur: WidgetId = root;
    while i < segs.len()
        invariant
            ui.wf(),
            i <= segs.len(),
            all == chars_view(segs@),
            want == resolved(*ui, path@),
            walk(*ui, cur, all.skip(i as int)) == want,
        decreases segs.len() - i,
    {
        let seg = string_of(segs[i].as_slice());
        proof {
            assert(all.skip(i as int)[0] == seg@);
            assert(all.skip(i as int).drop_first() =~= all.skip(i + 1));
        }
        match step_to(ui, cur, seg.as_str()) {
            Some(c) => {
                cur = c;
            },
            None => {
                return None;
            },
        }
        i += 1;
    }
    Some(cur)
}

// ---------------------------------------------------------------------
// there and back
// ---------------------------------------------------------------------

/// No two children of one widget share an addressable name.
pub open spec fn siblings_differ<W>(ui: Ui<W>) -> bool {
    forall|p: WidgetId, i: int, j: int|
        #![trigger kids(ui, p)[i], kids(ui, p)[j]]
        0 <= i < j < kids(ui, p).len() ==> !(ui.address(kids(ui, p)[i]) matches Some(n)
            && is_addressable(n) && ui.address(kids(ui, p)[j]) == Some(n))
}

proof fn lemma_first_named<W>(ui: Ui<W>, ids: Seq<WidgetId>, k: int, name: Seq<char>)
    requires
        0 <= k < ids.len(),
        ui.address(ids[k]) == Some(name),
        forall|i: int| 0 <= i < k ==> ui.address(#[trigger] ids[i]) != Some(name),
    ensures
        first_named(ui, ids, name) == Some(ids[k]),
    decreases k,
{
    if k > 0 {
        let rest = ids.drop_first();
        assert forall|i: int| 0 <= i < k - 1 implies ui.address(#[trigger] rest[i]) != Some(
            name,
        ) by {
            assert(rest[i] == ids[i + 1]);
        }
        assert(ui.address(ids[0]) != Some(name));
        lemma_first_named(ui, rest, k - 1, name);
    }
}

proof fn lemma_count_first<W: Widget>(ui: Ui<W>, ids: Seq<WidgetId>, role: Role)
    requires
        ids.len() > 0,
    ensures
        count_role(ui, ids, role) == count_role(ui, ids.drop_first(), role) + if ui.role_at(ids[0])
            == Some(role) {
            1nat
        } else {
            0
        },
    decreases ids.len(),
{
    if ids.len() == 1 {
        assert(ids.drop_first() =~= Seq::<WidgetId>::empty());
        assert(ids.drop_last() =~= Seq::<WidgetId>::empty());
    } else {
        lemma_count_first(ui, ids.drop_last(), role);
        assert(ids.drop_last().drop_first() =~= ids.drop_first().drop_last());
    }
}

proof fn lemma_count_bound<W: Widget>(ui: Ui<W>, ids: Seq<WidgetId>, role: Role)
    ensures
        count_role(ui, ids, role) <= ids.len(),
    decreases ids.len(),
{
    if ids.len() > 0 {
        lemma_count_bound(ui, ids.drop_last(), role);
    }
}

proof fn lemma_nth_role<W: Widget>(ui: Ui<W>, ids: Seq<WidgetId>, k: int, role: Role)
    requires
        0 <= k < ids.len(),
        ui.role_at(ids[k]) == Some(role),
    ensures
        nth_role(ui, ids, role_name(role), count_role(ui, ids.take(k), role)) == Some(ids[k]),
    decreases k,
{
    if k > 0 {
        let head = ids.take(k);
        lemma_count_first(ui, head, role);
        assert(head.drop_first() =~= ids.drop_first().take(k - 1));
        lemma_nth_role(ui, ids.drop_first(), k - 1, role);
        if ui.role_at(ids[0]) is Some {
            role_names_differ(ui.role_at(ids[0])->0, role);
        }
    } else {
        assert(ids.take(0) =~= Seq::<WidgetId>::empty());
    }
}

proof fn lemma_indexed(role: Role, n: nat)
    requires
        n <= usize::MAX,
    ensures
        indexed(indexed_segment(role, n)) == Some((role_name(role), n)),
        !is_addressable(indexed_segment(role, n)),
        plain(indexed_segment(role, n)),
{
    role_names_are_letters(role);
    lemma_dec(n);
    let name = role_name(role);
    let seg = indexed_segment(role, n);
    let k = name.len() as int;
    assert(seg[k] == '[');
    assert forall|i: int| 0 <= i < k implies seg[i] != '[' by {
        assert(seg[i] == name[i]);
    }
    lemma_find(seg, '[', k);
    let rest = seg.skip(k + 1);
    assert(rest =~= dec(n).push(']'));
    assert(rest.drop_last() =~= dec(n));
    assert(seg.take(k) =~= name);
    decimal_round_trip(n, usize::MAX as nat);
    assert forall|i: int| 0 <= i < seg.len() implies seg[i] != '/' && !is_space(#[trigger] seg[i]) by {
        if i < k {
            assert(seg[i] == name[i]);
        } else if i > k && i < seg.len() - 1 {
            assert(seg[i] == dec(n)[i - k - 1]);
            assert(is_digit(dec(n)[i - k - 1]));
        }
    }
}

/// Whether a segment holds something, and neither slashes nor white space.
pub open spec fn plain(seg: Seq<char>) -> bool {
    &&& seg.len() > 0
    &&& forall|i: int| 0 <= i < seg.len() ==> seg[i] != '/' && !is_space(#[trigger] seg[i])
}

proof fn lemma_step_back<W: Widget>(ui: Ui<W>, p: WidgetId, c: WidgetId)
    requires
        ui.wf(),
        siblings_differ(ui),
        ui@.nodes.dom().contains(c),
        ui@.nodes[c].state.parent == Some(p),
        segment(ui, p, c) is Some,
    ensures
        step(ui, p, segment(ui, p, c)->0) == Some(c),
        plain(segment(ui, p, c)->0),
{
    let m = ui@.nodes;
    ui.tree_shape();
    reveal(linked);
    assert(m.dom().contains(p) && m[p].state.children.contains(c));
    let ids = kids(ui, p);
    ids.index_of_first_ensures(c);
    let k = ids.index_of_first(c)->0;
    let role = ui.role_at(c)->0;
    let name = ui.address(c)->0;
    if ui.address(c) is Some && is_addressable(name) {
        assert forall|i: int| 0 <= i < k implies ui.address(#[trigger] ids[i]) != Some(name) by {
            assert(kids(ui, p)[i] == ids[i] && kids(ui, p)[k] == c);
        }
        lemma_first_named(ui, ids, k, name);
    } else {
        let n = count_role(ui, ids.take(k), role);
        lemma_count_bound(ui, ids.take(k), role);
        ui.countable();
        assert(m.dom().contains(p));
        ids.unique_seq_to_set();
        assert(ids.to_set().subset_of(m.dom())) by {
            assert forall|x: WidgetId| ids.to_set().contains(x) implies m.dom().contains(x) by {
                let i = choose|i: int| 0 <= i < ids.len() && ids[i] == x;
                assert(m.dom().contains(m[p].state.children[i]));
            }
        }
        vstd::set_lib::lemma_len_subset(ids.to_set(), m.dom());
        lemma_indexed(role, n);
        lemma_nth_role(ui, ids, k, role);
    }
}

proof fn lemma_walk_push<W: Widget>(
    ui: Ui<W>,
    at: WidgetId,
    segs: Seq<Seq<char>>,
    s: Seq<char>,
    mid: WidgetId,
)
    requires
        walk(ui, at, segs) == Some(mid),
    ensures
        walk(ui, at, segs.push(s)) == step(ui, mid, s),
    decreases segs.len(),
{
    let all = segs.push(s);
    if segs.len() == 0 {
        assert(all.drop_first() =~= Seq::<Seq<char>>::empty());
        reveal_with_fuel(walk, 2);
    } else {
        assert(all[0] == segs[0]);
        assert(all.drop_first() =~= segs.drop_first().push(s));
        lemma_walk_push(ui, step(ui, at, segs[0])->0, segs.drop_first(), s, mid);
    }
}

proof fn lemma_segments<W: Widget>(ui: Ui<W>, root: WidgetId, id: WidgetId)
    requires
        ui.wf(),
        siblings_differ(ui),
        segments(ui, root, climbed(ui, id)) is Some,
    ensures
        ({
            let parts = segments(ui, root, climbed(ui, id))->0;
            &&& parts.len() > 0
            &&& parts[0] == ROOT@
            &&& walk(ui, root, parts.drop_first()) == Some(id)
            &&& forall|i: int| 0 <= i < parts.len() ==> plain(#[trigger] parts[i])
        }),
    decreases climbed(ui, id).len(),
{
    lemma_climbed(ui, id);
    let chain = climbed(ui, id);
    let parts = segments(ui, root, chain)->0;
    if id == root {
        reveal_strlit("window");
        assert(parts =~= seq![ROOT@]);
        assert(parts.drop_first() =~= Seq::<Seq<char>>::empty());
        assert(plain(ROOT@));
    } else {
        let p = ui@.nodes[id].state.parent->0;
        assert(chain.drop_first() =~= climbed(ui, p));
        assert(chain[1] == p);
        lemma_segments(ui, root, p);
        let up = segments(ui, root, climbed(ui, p))->0;
        let last = segment(ui, p, id)->0;
        lemma_step_back(ui, p, id);
        lemma_walk_push(ui, root, up.drop_first(), last, p);
        assert(parts == up.push(last));
        assert(parts.drop_first() =~= up.drop_first().push(last));
        assert forall|i: int| 0 <= i < parts.len() implies plain(#[trigger] parts[i]) by {
            if i < up.len() {
                assert(parts[i] == up[i]);
            }
        }
    }
}

proof fn lemma_split_joined(parts: Seq<Seq<char>>)
    requires
        parts.len() > 0,
        forall|i: int| 0 <= i < parts.len() ==> plain(#[trigger] parts[i]),
    ensures
        split(joined(parts, '/'), '/') == parts,
        joined(parts, '/').len() > 0,
        joined(parts, '/')[0] == parts[0][0],
        joined(parts, '/').last() == parts.last().last(),
    decreases parts.len(),
{
    let head = parts[0];
    let all = joined(parts, '/');
    assert(plain(head));
    if parts.len() == 1 {
        lemma_find(all, '/', all.len() as int);
        assert(split(all, '/') =~= parts);
    } else {
        let rest = parts.drop_first();
        assert forall|i: int| 0 <= i < rest.len() implies plain(#[trigger] rest[i]) by {
            assert(rest[i] == parts[i + 1]);
        }
        lemma_split_joined(rest);
        let k = head.len() as int;
        assert forall|i: int| 0 <= i < k implies all[i] != '/' by {
            assert(all[i] == head[i]);
            assert(!is_space(head[i]));
        }
        assert(all[k] == '/');
        lemma_find(all, '/', k);
        assert(all.take(k) =~= head);
        assert(all.skip(k + 1) =~= joined(rest, '/'));
        assert(split(all, '/') =~= parts);
    }
}

/// The path of a widget leads back to that widget, wherever no two children
/// of one parent share a name.
pub proof fn paths_lead_back<W: Widget>(ui: Ui<W>, id: WidgetId)
    requires
        ui.wf(),
        siblings_differ(ui),
        path_at(ui, id) is Some,
    ensures
        resolved(ui, path_at(ui, id)->0) == Some(id),
{
    let root = ui@.root->0;
    let parts = segments(ui, root, climbed(ui, id))->0;
    let path = joined(parts, '/');
    lemma_segments(ui, root, id);
    lemma_split_joined(parts);
    let first = parts[0];
    let last = parts.last();
    assert(plain(first) && plain(last));
    assert(!is_space(first[0]) && first[0] != '/');
    assert(!is_space(last[last.len() - 1]) && last[last.len() - 1] != '/');
    assert(bare(path) == path);
}

} // verus!
