//! What the requests are answered, out of the live tree.

use vstd::prelude::*;

use crate::arena::{text_view, Bounds, WidgetId};
use crate::chars::{
    chars_of, dec, decimal, owned, signed_dec, signed_decimal, slice_of, string_of, text_eq,
};
use crate::error::Error;
use crate::event::Handled;
use crate::introspect::path::{kids, path_at, path_of, resolve, resolved};
use crate::introspect::request::{
    body_text, err, err_text, ok_body, ok_empty, ok_text, parse_request, request_of, Request,
    RequestView,
};
use crate::introspect::text::{
    addressable, escape, escaped, is_addressable, join, joined, strings_view, strip_end,
};
use crate::tree::{linked, ranked};
use crate::ui::access::Node;
use crate::ui::Ui;
use crate::widget::{role_name, Role, Widget};

verus! {

// ---------------------------------------------------------------------
// one widget in words
// ---------------------------------------------------------------------

/// `x,y,w,h`.
pub open spec fn bounds_text(b: Bounds) -> Seq<char> {
    signed_dec(b.x as int) + seq![','] + signed_dec(b.y as int) + seq![','] + signed_dec(
        b.w as int,
    ) + seq![','] + signed_dec(b.h as int)
}

/// `x,y,w,h`, in whole pixels: a fraction of one helps neither a script nor
/// a human.
pub fn format_bounds(b: Bounds) -> (out: String)
    ensures
        out@ == bounds_text(b),
{
    let mut out = signed_decimal(b.x);
    out.push(',');
    let y = signed_decimal(b.y);
    out.append(y.as_str());
    out.push(',');
    let w = signed_decimal(b.w);
    out.append(w.as_str());
    out.push(',');
    let h = signed_decimal(b.h);
    out.append(h.as_str());
    assert(out@ =~= bounds_text(b));
    out
}

/// `true` or `false`.
pub open spec fn bool_text(b: bool) -> Seq<char> {
    if b {
        "true"@
    } else {
        "false"@
    }
}

fn bool_word(b: bool) -> (out: String)
    ensures
        out@ == bool_text(b),
{
    if b {
        "true".to_owned()
    } else {
        "false".to_owned()
    }
}

/// Whether the widget at `id` reacts to input.
pub fn enabled<W: Widget>(ui: &Ui<W>, id: WidgetId) -> (r: bool)
    ensures
        r == ui.enabled_at(id),
{
    ui.is_enabled(id)
}

/// Whether the pointer is over a widget.
pub open spec fn hovered_at<W>(ui: Ui<W>, id: WidgetId) -> bool {
    ui@.nodes.dom().contains(id) && ui@.nodes[id].state.hovered
}

/// One word if it holds, and nothing otherwise.
pub open spec fn flag(on: bool, word: Seq<char>) -> Seq<Seq<char>> {
    if on {
        seq![word]
    } else {
        Seq::empty()
    }
}

/// The flags of a widget, in the order they are listed.
pub open spec fn flag_words<W: Widget>(ui: Ui<W>, id: WidgetId) -> Seq<Seq<char>> {
    let st = ui@.nodes[id].state;
    flag(st.focused, "focused"@) + flag(hovered_at(ui, id), "hovered"@) + flag(
        st.focusable,
        "focusable"@,
    ) + flag(ui.enabled_at(id), "enabled"@)
}

/// The flags of a widget, separated by commas; `-` where there are none.
pub open spec fn flags_text<W: Widget>(ui: Ui<W>, id: WidgetId) -> Seq<char> {
    let ws = flag_words(ui, id);
    if ws.len() == 0 {
        "-"@
    } else {
        joined(ws, ',')
    }
}

fn flags<W: Widget>(ui: &Ui<W>, node: &Node) -> (out: String)
    requires
        node@ == ui.node_at(node@.id),
    ensures
        out@ == flags_text(*ui, node@.id),
{
    let mut list: Vec<String> = Vec::new();
    let ghost mut said: Seq<Seq<char>> = Seq::empty();
    assert(strings_view(list@) =~= said);
    if node.focused {
        list.push("focused".to_owned());
    }
    proof {
        said = flag(node.focused, "focused"@);
        assert(strings_view(list@) =~= said);
    }
    let over = ui.is_hovered(node.id);
    if over {
        list.push("hovered".to_owned());
    }
    proof {
        said = said + flag(over, "hovered"@);
        assert(strings_view(list@) =~= said);
    }
    if node.focusable {
        list.push("focusable".to_owned());
    }
    proof {
        said = said + flag(node.focusable, "focusable"@);
        assert(strings_view(list@) =~= said);
    }
    let on = enabled(ui, node.id);
    if on {
        list.push("enabled".to_owned());
    }
    proof {
        said = said + flag(on, "enabled"@);
        assert(strings_view(list@) =~= said);
        assert(said == flag_words(*ui, node@.id));
    }
    if list.len() == 0 {
        "-".to_owned()
    } else {
        join(&list, ',')
    }
}

/// The widget's name where a path can hold it.
pub open spec fn listed_name<W>(ui: Ui<W>, id: WidgetId) -> Option<Seq<char>> {
    match ui.address(id) {
        Some(n) => if is_addressable(n) {
            Some(n)
        } else {
            None
        },
        None => None,
    }
}

fn name_listed<W>(ui: &Ui<W>, id: WidgetId) -> (r: Option<String>)
    ensures
        text_view(r) == listed_name(*ui, id),
{
    match ui.address_name(id) {
        Some(n) => if addressable(n.as_str()) {
            Some(n)
        } else {
            None
        },
        None => None,
    }
}

/// `s`, or `-` where there is none.
pub open spec fn or_dash(s: Option<Seq<char>>) -> Seq<char> {
    match s {
        Some(t) => t,
        None => "-"@,
    }
}

/// `s`, or nothing where there is none.
pub open spec fn or_empty(s: Option<Seq<char>>) -> Seq<char> {
    match s {
        Some(t) => t,
        None => Seq::empty(),
    }
}

/// Whether a widget is live and in its slot.
pub open spec fn at_home<W>(ui: Ui<W>, id: WidgetId) -> bool {
    ui@.nodes.dom().contains(id) && ui@.nodes[id].widget is Some
}

/// One line of a listing: path, role, name, value, bounds and flags,
/// separated by tabs. A widget that is out of its slot or not under the
/// root has none.
pub open spec fn described<W: Widget>(ui: Ui<W>, id: WidgetId) -> Option<Seq<char>> {
    if at_home(ui, id) && path_at(ui, id) is Some {
        let n = ui.node_at(id);
        Some(
            escaped(path_at(ui, id)->0) + seq!['\t'] + role_name(n.role) + seq!['\t'] + escaped(
                or_dash(listed_name(ui, id)),
            ) + seq!['\t'] + escaped(or_dash(n.access.value)) + seq!['\t'] + bounds_text(n.bounds)
                + seq!['\t'] + flags_text(ui, id),
        )
    } else {
        None
    }
}

fn describe<W: Widget>(ui: &Ui<W>, id: WidgetId) -> (r: Option<String>)
    requires
        ui.wf(),
    ensures
        text_view(r) == described(*ui, id),
{
    let node = match ui.introspect_node(id) {
        Ok(n) => n,
        Err(_) => {
            return None;
        },
    };
    let path = match path_of(ui, id) {
        Some(p) => p,
        None => {
            return None;
        },
    };
    let name = match name_listed(ui, id) {
        Some(n) => n,
        None => "-".to_owned(),
    };
    let mut out = escape(path.as_str());
    out.push('\t');
    out.append(node.role.name());
    out.push('\t');
    let name = escape(name.as_str());
    out.append(name.as_str());
    out.push('\t');
    let value = match &node.access.value {
        Some(v) => escape(v.as_str()),
        None => escape("-"),
    };
    out.append(value.as_str());
    out.push('\t');
    let bounds = format_bounds(node.bounds);
    out.append(bounds.as_str());
    out.push('\t');
    let marks = flags(ui, &node);
    out.append(marks.as_str());
    assert(Some(out@) == described(*ui, id));
    Some(out)
}

// ---------------------------------------------------------------------
// list
// ---------------------------------------------------------------------

/// Two spaces for each level.
pub open spec fn padding(depth: nat) -> Seq<char>
    decreases depth,
{
    if depth == 0 {
        Seq::empty()
    } else {
        padding((depth - 1) as nat) + "  "@
    }
}

/// A widget's line in a listing, with its line break, at a depth.
pub open spec fn line_at<W: Widget>(ui: Ui<W>, id: WidgetId, depth: nat, indent: bool) -> Seq<char> {
    match described(ui, id) {
        Some(line) => (if indent {
            padding(depth)
        } else {
            Seq::empty()
        }) + line + seq!['\n'],
        None => Seq::empty(),
    }
}

/// The lines of `ids` and of everything under them that ranks below
/// `bound`, in tree order.
pub open spec fn lines<W: Widget>(
    ui: Ui<W>,
    ids: Seq<WidgetId>,
    bound: nat,
    depth: nat,
    indent: bool,
) -> Seq<char>
    decreases bound, ids.len(),
{
    if ids.len() == 0 {
        Seq::empty()
    } else {
        let id = ids[0];
        let rest = lines(ui, ids.drop_first(), bound, depth, indent);
        if ui@.nodes.dom().contains(id) && ui.rank()[id] < bound {
            line_at(ui, id, depth, indent) + lines(
                ui,
                kids(ui, id),
                ui.rank()[id],
                depth + 1,
                indent,
            ) + rest
        } else {
            rest
        }
    }
}

/// The listing of a widget and everything under it.
pub open spec fn listing<W: Widget>(ui: Ui<W>, id: WidgetId, depth: nat, indent: bool) -> Seq<char> {
    lines(ui, seq![id], ui.rank()[id] + 1, depth, indent)
}

pub proof fn lemma_listing<W: Widget>(ui: Ui<W>, id: WidgetId, depth: nat, indent: bool)
    requires
        ui@.nodes.dom().contains(id),
    ensures
        listing(ui, id, depth, indent) == line_at(ui, id, depth, indent) + lines(
            ui,
            kids(ui, id),
            ui.rank()[id],
            depth + 1,
            indent,
        ),
{
    let ids = seq![id];
    assert(ids.drop_first() =~= Seq::<WidgetId>::empty());
    assert(lines(ui, ids.drop_first(), ui.rank()[id] + 1, depth, indent) =~= Seq::<char>::empty());
    assert(listing(ui, id, depth, indent) =~= line_at(ui, id, depth, indent) + lines(
        ui,
        kids(ui, id),
        ui.rank()[id],
        depth + 1,
        indent,
    ));
}

pub proof fn lemma_lines_push<W: Widget>(
    ui: Ui<W>,
    ids: Seq<WidgetId>,
    x: WidgetId,
    bound: nat,
    depth: nat,
    indent: bool,
)
    requires
        ui@.nodes.dom().contains(x),
        ui.rank()[x] < bound,
    ensures
        lines(ui, ids.push(x), bound, depth, indent) == lines(ui, ids, bound, depth, indent)
            + listing(ui, x, depth, indent),
    decreases ids.len(),
{
    let all = ids.push(x);
    if ids.len() == 0 {
        lemma_listing(ui, x, depth, indent);
        assert(all.drop_first() =~= Seq::<WidgetId>::empty());
        assert(lines(ui, all.drop_first(), bound, depth, indent) =~= Seq::<char>::empty());
        assert(lines(ui, all, bound, depth, indent) =~= listing(ui, x, depth, indent));
    } else {
        lemma_lines_push(ui, ids.drop_first(), x, bound, depth, indent);
        assert(all.drop_first() =~= ids.drop_first().push(x));
        assert(all[0] == ids[0]);
        assert(lines(ui, all, bound, depth, indent) =~= lines(ui, ids, bound, depth, indent)
            + listing(ui, x, depth, indent));
    }
}

fn list_into<W: Widget>(
    ui: &Ui<W>,
    id: WidgetId,
    pad: &str,
    indent: bool,
    out: &mut String,
    Ghost(depth): Ghost<nat>,
)
    requires
        ui.wf(),
        ui@.nodes.dom().contains(id),
        pad@ == padding(depth),
    ensures
        final(out)@ == old(out)@ + listing(*ui, id, depth, indent),
    decreases ui.rank()[id],
{
    let ghost start = out@;
    proof {
        lemma_listing(*ui, id, depth, indent);
    }
    if let Some(line) = describe(ui, id) {
        if indent {
            out.append(pad);
        }
        out.append(line.as_str());
        out.push('\n');
    }
    let ghost head = start + line_at(*ui, id, depth, indent);
    assert(out@ =~= head);
    let ids = ui.children(id);
    let mut deeper = owned(pad);
    deeper.append("  ");
    assert(deeper@ == padding(depth + 1));
    let mut i: usize = 0;
    let ghost bound = ui.rank()[id];
    assert(ids@.take(0) =~= Seq::<WidgetId>::empty());
    assert(head =~= head + lines(*ui, ids@.take(0), bound, depth + 1, indent));
    while i < ids.len()
        invariant
            ui.wf(),
            ui@.nodes.dom().contains(id),
            i <= ids.len(),
            ids@ == kids(*ui, id),
            bound == ui.rank()[id],
            deeper@ == padding(depth + 1),
            out@ == head + lines(*ui, ids@.take(i as int), bound, depth + 1, indent),
        decreases ids.len() - i,
    {
        let c = ids[i];
        proof {
            ui.tree_shape();
            assert(ui@.nodes.dom().contains(c) && ui.rank()[c] < bound) by {
                reveal(linked);
                reveal(ranked);
                assert(ui@.nodes[id].state.children[i as int] == c);
            }
            lemma_lines_push(*ui, ids@.take(i as int), c, bound, depth + 1, indent);
            assert(ids@.take(i + 1) =~= ids@.take(i as int).push(c));
        }
        let ghost before = out@;
        list_into(ui, c, deeper.as_str(), indent, out, Ghost(depth + 1));
        proof {
            assert(out@ == before + listing(*ui, c, depth + 1, indent));
            assert(out@ =~= head + lines(*ui, ids@.take(i + 1), bound, depth + 1, indent));
        }
        i += 1;
    }
    assert(ids@.take(i as int) =~= ids@);
    assert(out@ =~= start + listing(*ui, id, depth, indent));
}

/// What a listing request is answered: one line per widget in tree order.
pub open spec fn list_of<W: Widget>(ui: Ui<W>, path: Seq<char>, indent: bool) -> Result<
    Seq<char>,
    Seq<char>,
> {
    match resolved(ui, path) {
        Some(id) => Ok(
            if ui@.nodes.dom().contains(id) {
                listing(ui, id, 0, indent)
            } else {
                Seq::empty()
            },
        ),
        None => Err("no such widget"@),
    }
}

/// What a result says, as mathematical values.
pub open spec fn result_view(r: Result<String, String>) -> Result<Seq<char>, Seq<char>> {
    match r {
        Ok(s) => Ok(s@),
        Err(s) => Err(s@),
    }
}

/// One line per widget in tree order, rooted at `path`.
pub fn list<W: Widget>(ui: &Ui<W>, path: &str, indent: bool) -> (r: Result<String, String>)
    requires
        ui.wf(),
    ensures
        result_view(r) == list_of(*ui, path@, indent),
{
    match resolve(ui, path) {
        Some(id) => {
            let mut out = String::new();
            if ui.is_live(id) {
                assert(""@ =~= Seq::<char>::empty()) by {
                    reveal_strlit("");
                }
                list_into(ui, id, "", indent, &mut out, Ghost(0nat));
                assert(out@ =~= listing(*ui, id, 0, indent));
            }
            Ok(out)
        },
        None => Err("no such widget".to_owned()),
    }
}

// ---------------------------------------------------------------------
// get
// ---------------------------------------------------------------------

/// Whether a widget of this role has its text for its value.
pub open spec fn reads_as_text(role: Role) -> bool {
    role is Label || role is Button || role is TextField || role is Terminal || role is List
}

/// The properties of a widget, in the order they are given.
pub open spec fn properties<W: Widget>(ui: Ui<W>, id: WidgetId) -> Seq<(Seq<char>, Seq<char>)> {
    let n = ui.node_at(id);
    let value = or_empty(n.access.value);
    seq![
        ("path"@, or_empty(path_at(ui, id))),
        ("role"@, role_name(n.role)),
        ("name"@, or_empty(listed_name(ui, id))),
        ("value"@, value),
        (
            "text"@,
            if reads_as_text(n.role) {
                value
            } else {
                Seq::empty()
            },
        ),
        ("bounds"@, bounds_text(n.bounds)),
        ("enabled"@, bool_text(ui.enabled_at(id))),
        ("focused"@, bool_text(n.focused)),
        ("focusable"@, bool_text(n.focusable)),
        ("hovered"@, bool_text(hovered_at(ui, id))),
        ("children"@, dec(n.children.len())),
        ("actions"@, joined(n.access.actions, ',')),
    ]
}

/// The first value under a key.
pub open spec fn value_under(props: Seq<(Seq<char>, Seq<char>)>, key: Seq<char>) -> Option<Seq<char>>
    decreases props.len(),
{
    if props.len() == 0 {
        None
    } else if props[0].0 == key {
        Some(props[0].1)
    } else {
        value_under(props.drop_first(), key)
    }
}

/// One line for each property: its key, a tab and its value.
pub open spec fn table(props: Seq<(Seq<char>, Seq<char>)>) -> Seq<char>
    decreases props.len(),
{
    if props.len() == 0 {
        Seq::empty()
    } else {
        table(props.drop_last()) + props.last().0 + seq!['\t'] + escaped(props.last().1) + seq!['\n']
    }
}

/// Why a widget that a path names cannot be read.
pub open spec fn unreadable<W>(ui: Ui<W>, id: WidgetId) -> Seq<char> {
    if ui@.nodes.dom().contains(id) {
        Error::Busy.words()
    } else {
        Error::StaleWidget.words()
    }
}

/// What a request to read a widget is answered: every property, or one.
/// An empty value reads as `-` where it would be the whole answer.
pub open spec fn got<W: Widget>(ui: Ui<W>, path: Seq<char>, prop: Option<Seq<char>>) -> Result<
    Seq<char>,
    Seq<char>,
> {
    match resolved(ui, path) {
        None => Err("no such widget"@),
        Some(id) => if !at_home(ui, id) {
            Err(unreadable(ui, id))
        } else {
            match prop {
                None => Ok(table(properties(ui, id))),
                Some(want) => match value_under(properties(ui, id), want) {
                    Some(v) => Ok(
                        if v.len() == 0 {
                            "-\n"@
                        } else {
                            escaped(v).push('\n')
                        },
                    ),
                    None => Err("unknown property `"@ + want + "`"@),
                },
            }
        },
    }
}

/// A run of properties, as mathematical values.
pub open spec fn props_view(s: Seq<(&'static str, String)>) -> Seq<(Seq<char>, Seq<char>)> {
    s.map_values(|p: (&'static str, String)| (p.0@, p.1@))
}

fn join_words(parts: &Vec<&'static str>) -> (out: String)
    ensures
        out@ == joined(parts@.map_values(|s: &'static str| s@), ','),
{
    let mut list: Vec<String> = Vec::new();
    let mut i: usize = 0;
    while i < parts.len()
        invariant
            i <= parts.len(),
            list@.len() == i,
            forall|k: int| 0 <= k < i ==> (#[trigger] list@[k])@ == parts@[k]@,
        decreases parts.len() - i,
    {
        list.push(parts[i].to_owned());
        i += 1;
    }
    assert(strings_view(list@) =~= parts@.map_values(|s: &'static str| s@));
    join(&list, ',')
}

fn text_or_empty(s: Option<String>) -> (out: String)
    ensures
        out@ == or_empty(text_view(s)),
{
    match s {
        Some(t) => t,
        None => String::new(),
    }
}

fn properties_of<W: Widget>(ui: &Ui<W>, node: &Node) -> (out: Vec<(&'static str, String)>)
    requires
        ui.wf(),
        node@ == ui.node_at(node@.id),
    ensures
        props_view(out@) == properties(*ui, node@.id),
{
    let id = node.id;
    let own_path = text_or_empty(path_of(ui, id));
    let value = match &node.access.value {
        Some(v) => owned(v.as_str()),
        None => String::new(),
    };
    let name = text_or_empty(name_listed(ui, id));
    let text = match node.role {
        Role::Label | Role::Button | Role::TextField | Role::Terminal | Role::List => owned(
            value.as_str(),
        ),
        _ => String::new(),
    };
    let mut out: Vec<(&'static str, String)> = Vec::new();
    out.push(("path", own_path));
    out.push(("role", node.role.name().to_owned()));
    out.push(("name", name));
    out.push(("value", value));
    out.push(("text", text));
    out.push(("bounds", format_bounds(node.bounds)));
    out.push(("enabled", bool_word(enabled(ui, id))));
    out.push(("focused", bool_word(node.focused)));
    out.push(("focusable", bool_word(node.focusable)));
    out.push(("hovered", bool_word(ui.is_hovered(id))));
    out.push(("children", decimal(node.children.len() as u64)));
    out.push(("actions", join_words(&node.access.actions)));
    assert(props_view(out@) =~= properties(*ui, id));
    out
}

/// Every property of a widget, or one.
pub fn get<W: Widget>(ui: &Ui<W>, path: &str, prop: Option<&str>) -> (r: Result<String, String>)
    requires
        ui.wf(),
    ensures
        result_view(r) == got(
            *ui,
            path@,
            match prop {
                Some(p) => Some(p@),
                None => None,
            },
        ),
{
    let id = match resolve(ui, path) {
        Some(id) => id,
        None => {
            return Err("no such widget".to_owned());
        },
    };
    let node = match ui.introspect_node(id) {
        Ok(n) => n,
        Err(e) => {
            return Err(e.text());
        },
    };
    let props = properties_of(ui, &node);
    let ghost all = props_view(props@);
    match prop {
        Some(want) => {
            let mut i: usize = 0;
            assert(all.skip(0) =~= all);
            while i < props.len()
                invariant
                    i <= props.len(),
                    all == props_view(props@),
                    all == properties(*ui, id),
                    resolved(*ui, path@) == Some(id),
                    at_home(*ui, id),
                    prop == Some(want),
                    value_under(all, want@) == value_under(all.skip(i as int), want@),
                decreases props.len() - i,
            {
                proof {
                    assert(all.skip(i as int)[0] == all[i as int]);
                    assert(all.skip(i as int).drop_first() =~= all.skip(i + 1));
                }
                let (key, value) = &props[i];
                if text_eq(key, want) {
                    let mut out = escape(value.as_str());
                    if value.as_str().is_empty() {
                        return Ok("-\n".to_owned());
                    }
                    out.push('\n');
                    return Ok(out);
                }
                i += 1;
            }
            let mut why = "unknown property `".to_owned();
            why.append(want);
            why.append("`");
            Err(why)
        },
        None => {
            let mut out = String::new();
            let mut i: usize = 0;
            assert(all.take(0) =~= Seq::<(Seq<char>, Seq<char>)>::empty());
            while i < props.len()
                invariant
                    i <= props.len(),
                    all == props_view(props@),
                    out@ == table(all.take(i as int)),
                decreases props.len() - i,
            {
                let (key, value) = &props[i];
                let ghost before = out@;
                out.append(key);
                out.push('\t');
                let safe = escape(value.as_str());
                out.append(safe.as_str());
                out.push('\n');
                proof {
                    assert(all.take(i + 1).drop_last() =~= all.take(i as int));
                    assert(all.take(i + 1).last() == all[i as int]);
                    assert(out@ =~= table(all.take(i + 1)));
                }
                i += 1;
            }
            assert(all.take(i as int) =~= all);
            Ok(out)
        },
    }
}

/// One property of one widget, without the framing of a reply.
pub fn get_prop<W: Widget>(ui: &Ui<W>, path: &str, prop: &str) -> (r: Result<String, String>)
    requires
        ui.wf(),
    ensures
        result_view(r) == (match got(*ui, path@, Some(prop@)) {
            Ok(s) => Ok(strip_end(s, '\n')),
            Err(e) => Err(e),
        }),
{
    match get(ui, path, Some(prop)) {
        Ok(s) => {
            let v = chars_of(s.as_str());
            let mut n: usize = v.len();
            assert(v@.take(n as int) =~= v@);
            while n > 0 && v[n - 1] == '\n'
                invariant
                    n <= v.len(),
                    strip_end(v@, '\n') == strip_end(v@.take(n as int), '\n'),
                decreases n,
            {
                assert(v@.take(n as int).last() == v@[n - 1]);
                assert(v@.take(n as int).drop_last() =~= v@.take(n - 1));
                n -= 1;
            }
            proof {
                if n > 0 {
                    assert(v@.take(n as int).last() == v@[n - 1]);
                }
                assert(v@.take(n as int) =~= v@.subrange(0, n as int));
            }
            let out = slice_of(v.as_slice(), 0, n);
            Ok(string_of(out.as_slice()))
        },
        Err(e) => Err(e),
    }
}

// ---------------------------------------------------------------------
// set and do
// ---------------------------------------------------------------------

/// What an action that nothing handled means to whoever asked.
#[derive(Debug, Clone, PartialEq, Eq)]
pub enum Owed {
    /// Nothing: the request succeeded anyway.
    Nothing,
    /// There is no settable property of this name.
    Property(String),
    /// There is no action of this name.
    Action(String),
}

/// What a request asks of the tree.
#[derive(Debug, Clone, PartialEq, Eq)]
pub enum Effect {
    /// Invoke an action, and answer by what came of it.
    Act {
        /// The widget.
        id: WidgetId,
        /// The action.
        action: String,
        /// Its argument.
        arg: Option<String>,
        /// What it means if nothing handles it.
        owed: Owed,
    },
    /// Drop the focus.
    Blur,
}

/// What an [`Owed`] means, as mathematical values.
pub enum OwedView {
    /// Nothing.
    Nothing,
    /// There is no settable property of this name.
    Property(Seq<char>),
    /// There is no action of this name.
    Action(Seq<char>),
}

/// What an [`Effect`] asks, as mathematical values.
pub enum EffectView {
    /// Invoke an action.
    Act {
        /// The widget.
        id: WidgetId,
        /// The action.
        action: Seq<char>,
        /// Its argument.
        arg: Option<Seq<char>>,
        /// What it means if nothing handles it.
        owed: OwedView,
    },
    /// Drop the focus.
    Blur,
}

impl View for Owed {
    type V = OwedView;

    open spec fn view(&self) -> OwedView {
        match *self {
            Owed::Nothing => OwedView::Nothing,
            Owed::Property(s) => OwedView::Property(s@),
            Owed::Action(s) => OwedView::Action(s@),
        }
    }
}

impl View for Effect {
    type V = EffectView;

    open spec fn view(&self) -> EffectView {
        match *self {
            Effect::Act { id, action, arg, owed } => EffectView::Act {
                id,
                action: action@,
                arg: text_view(arg),
                owed: owed@,
            },
            Effect::Blur => EffectView::Blur,
        }
    }
}

/// An effect or a complaint, as mathematical values.
pub open spec fn effect_view(r: Result<Effect, String>) -> Result<EffectView, Seq<char>> {
    match r {
        Ok(e) => Ok(e@),
        Err(s) => Err(s@),
    }
}

/// What a request to invoke an action asks of the tree.
pub open spec fn invocation<W: Widget>(
    ui: Ui<W>,
    path: Seq<char>,
    action: Seq<char>,
    arg: Option<Seq<char>>,
) -> Result<EffectView, Seq<char>> {
    match resolved(ui, path) {
        Some(id) => Ok(EffectView::Act { id, action, arg, owed: OwedView::Action(action) }),
        None => Err("no such widget"@),
    }
}

/// The properties that can be read and not set.
pub open spec fn read_only(prop: Seq<char>) -> bool {
    prop == "path"@ || prop == "role"@ || prop == "bounds"@ || prop == "children"@ || prop
        == "actions"@ || prop == "hovered"@ || prop == "focusable"@
}

/// What a request to set a property asks of the tree: a name and the focus
/// are the tree's own, and everything else is the widget's action `set_`
/// and the property's name.
pub open spec fn assignment<W: Widget>(
    ui: Ui<W>,
    path: Seq<char>,
    prop: Seq<char>,
    value: Seq<char>,
) -> Result<EffectView, Seq<char>> {
    match resolved(ui, path) {
        None => Err("no such widget"@),
        Some(id) => if prop == "name"@ {
            Ok(
                EffectView::Act {
                    id,
                    action: "set_name"@,
                    arg: Some(value),
                    owed: OwedView::Nothing,
                },
            )
        } else if prop == "focused"@ {
            if value == "true"@ {
                Ok(EffectView::Act { id, action: "focus"@, arg: None, owed: OwedView::Nothing })
            } else {
                Ok(EffectView::Blur)
            }
        } else if read_only(prop) {
            Err(seq!['`'] + prop + "` is read-only"@)
        } else {
            Ok(
                EffectView::Act {
                    id,
                    action: "set_"@ + prop,
                    arg: Some(value),
                    owed: OwedView::Property(prop),
                },
            )
        },
    }
}

/// Invoke an action through the widget's own method.
pub fn invoke<W: Widget>(ui: &Ui<W>, path: &str, action: &str, arg: Option<&str>) -> (r: Result<
    Effect,
    String,
>)
    requires
        ui.wf(),
    ensures
        effect_view(r) == invocation(
            *ui,
            path@,
            action@,
            match arg {
                Some(a) => Some(a@),
                None => None,
            },
        ),
{
    match resolve(ui, path) {
        Some(id) => Ok(
            Effect::Act {
                id,
                action: owned(action),
                arg: match arg {
                    Some(a) => Some(owned(a)),
                    None => None,
                },
                owed: Owed::Action(owned(action)),
            },
        ),
        None => Err("no such widget".to_owned()),
    }
}

/// Change a property through the same setter the app would use.
pub fn set<W: Widget>(ui: &Ui<W>, path: &str, prop: &str, value: &str) -> (r: Result<Effect, String>)
    requires
        ui.wf(),
    ensures
        effect_view(r) == assignment(*ui, path@, prop@, value@),
{
    let id = match resolve(ui, path) {
        Some(id) => id,
        None => {
            return Err("no such widget".to_owned());
        },
    };
    if text_eq(prop, "name") {
        return Ok(
            Effect::Act {
                id,
                action: "set_name".to_owned(),
                arg: Some(owned(value)),
                owed: Owed::Nothing,
            },
        );
    }
    if text_eq(prop, "focused") {
        if text_eq(value, "true") {
            return Ok(
                Effect::Act { id, action: "focus".to_owned(), arg: None, owed: Owed::Nothing },
            );
        }
        return Ok(Effect::Blur);
    }
    if text_eq(prop, "path") || text_eq(prop, "role") || text_eq(prop, "bounds") || text_eq(
        prop,
        "children",
    ) || text_eq(prop, "actions") || text_eq(prop, "hovered") || text_eq(prop, "focusable") {
        let mut why = String::new();
        why.push('`');
        why.append(prop);
        why.append("` is read-only");
        assert(why@ =~= seq!['`'] + prop@ + "` is read-only"@);
        return Err(why);
    }
    let mut action = "set_".to_owned();
    action.append(prop);
    Ok(
        Effect::Act {
            id,
            action,
            arg: Some(owned(value)),
            owed: Owed::Property(owned(prop)),
        },
    )
}

/// What an action's end means to whoever asked: nothing went wrong, or
/// what did.
pub open spec fn complaint(owed: OwedView, end: Result<Handled, Error>) -> Option<Seq<char>> {
    match end {
        Err(e) => Some(e.words()),
        Ok(h) => if h is Yes {
            None
        } else {
            match owed {
                OwedView::Nothing => None,
                OwedView::Property(p) => Some("no settable property `"@ + p + "`"@),
                OwedView::Action(a) => Some("unknown action `"@ + a + "`"@),
            }
        },
    }
}

/// The reply to a request whose action has ended.
pub fn answer(owed: &Owed, end: Result<Handled, Error>) -> (out: String)
    ensures
        out@ == (match complaint(owed@, end) {
            Some(why) => err_text(why),
            None => ok_text(),
        }),
{
    match end {
        Err(e) => {
            let why = e.text();
            err(why.as_str())
        },
        Ok(h) => {
            if h.is_handled() {
                return ok_empty();
            }
            match owed {
                Owed::Nothing => ok_empty(),
                Owed::Property(p) => {
                    let mut why = "no settable property `".to_owned();
                    why.append(p.as_str());
                    why.append("`");
                    err(why.as_str())
                },
                Owed::Action(a) => {
                    let mut why = "unknown action `".to_owned();
                    why.append(a.as_str());
                    why.append("`");
                    err(why.as_str())
                },
            }
        },
    }
}

// ---------------------------------------------------------------------
// any request
// ---------------------------------------------------------------------

/// What comes of a request line.
#[derive(Debug, Clone, PartialEq, Eq)]
pub enum Step {
    /// This is the whole reply.
    Reply(String),
    /// The tree is to change first.
    Run(Effect),
    /// The client watches this path from now on.
    Watch(String),
    /// The window is to be screenshot.
    Shot,
    /// The app is to stop.
    Quit,
}

/// What comes of a request line, as mathematical values.
pub enum StepView {
    /// This is the whole reply.
    Reply(Seq<char>),
    /// The tree is to change first.
    Run(EffectView),
    /// The client watches this path from now on.
    Watch(Seq<char>),
    /// The window is to be screenshot.
    Shot,
    /// The app is to stop.
    Quit,
}

impl View for Step {
    type V = StepView;

    open spec fn view(&self) -> StepView {
        match *self {
            Step::Reply(s) => StepView::Reply(s@),
            Step::Run(e) => StepView::Run(e@),
            Step::Watch(s) => StepView::Watch(s@),
            Step::Shot => StepView::Shot,
            Step::Quit => StepView::Quit,
        }
    }
}

/// A reply with a body, or with a complaint.
pub open spec fn told(r: Result<Seq<char>, Seq<char>>) -> StepView {
    match r {
        Ok(body) => StepView::Reply(body_text(body)),
        Err(why) => StepView::Reply(err_text(why)),
    }
}

/// An effect to run, or a complaint.
pub open spec fn asked(r: Result<EffectView, Seq<char>>) -> StepView {
    match r {
        Ok(e) => StepView::Run(e),
        Err(why) => StepView::Reply(err_text(why)),
    }
}

/// Whether a watch of `path` watches anything.
pub open spec fn watchable<W: Widget>(ui: Ui<W>, path: Seq<char>) -> bool {
    if path == "*"@ {
        ui@.root is Some
    } else {
        resolved(ui, path) is Some
    }
}

/// What comes of a request line.
pub open spec fn handled<W: Widget>(ui: Ui<W>, line: Seq<char>) -> StepView {
    match request_of(line) {
        RequestView::List { path, indent } => told(list_of(ui, path, indent)),
        RequestView::Get { path, only } => told(got(ui, path, only)),
        RequestView::Put { path, prop, value } => asked(assignment(ui, path, prop, value)),
        RequestView::Do { path, action, arg } => asked(invocation(ui, path, action, arg)),
        RequestView::Watch { path } => if watchable(ui, path) {
            StepView::Watch(path)
        } else {
            StepView::Reply(err_text("no such widget"@))
        },
        RequestView::Shot => StepView::Shot,
        RequestView::Quit => StepView::Quit,
        RequestView::Bad(why) => StepView::Reply(err_text(why)),
    }
}

fn tell(r: Result<String, String>) -> (s: Step)
    ensures
        s@ == told(result_view(r)),
{
    match r {
        Ok(body) => Step::Reply(ok_body(body.as_str())),
        Err(why) => Step::Reply(err(why.as_str())),
    }
}

fn ask(r: Result<Effect, String>) -> (s: Step)
    ensures
        s@ == asked(effect_view(r)),
{
    match r {
        Ok(e) => Step::Run(e),
        Err(why) => Step::Reply(err(why.as_str())),
    }
}

/// Execute one request line as far as reading the tree goes.
pub fn handle<W: Widget>(ui: &Ui<W>, line: &str) -> (s: Step)
    requires
        ui.wf(),
    ensures
        s@ == handled(*ui, line@),
{
    match parse_request(line) {
        Request::List { path, indent } => tell(list(ui, path.as_str(), indent)),
        Request::Get { path, only } => match &only {
            Some(p) => tell(get(ui, path.as_str(), Some(p.as_str()))),
            None => tell(get(ui, path.as_str(), None)),
        },
        Request::Put { path, prop, value } => ask(
            set(ui, path.as_str(), prop.as_str(), value.as_str()),
        ),
        Request::Do { path, action, arg } => match &arg {
            Some(a) => ask(invoke(ui, path.as_str(), action.as_str(), Some(a.as_str()))),
            None => ask(invoke(ui, path.as_str(), action.as_str(), None)),
        },
        Request::Watch { path } => {
            let known = if text_eq(path.as_str(), "*") {
                ui.root().is_some()
            } else {
                resolve(ui, path.as_str()).is_some()
            };
            if known {
                Step::Watch(path)
            } else {
                Step::Reply(err("no such widget"))
            }
        },
        Request::Shot => Step::Shot,
        Request::Quit => Step::Quit,
        Request::Bad(why) => Step::Reply(err(why.as_str())),
    }
}

} // verus!
