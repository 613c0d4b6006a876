//! Where a reply ends: at its one blank line.

use vstd::prelude::*;

use crate::arena::{Bounds, WidgetId};
use crate::chars::{dec, is_digit, lemma_dec, signed_dec};
use crate::introspect::answer::{
    bounds_text, described, flag_words, flags_text, got, handled, line_at, lines, list_of,
    listed_name, or_dash, padding, properties, table, value_under, StepView,
};
use crate::introspect::path::{kids, path_at, resolved};
use crate::introspect::request::{body_text, err_text, ok_text, one_line};
use crate::introspect::text::{escaped, escaped_fields_hold_no_breaks, joined};
use crate::ui::Ui;
use crate::widget::{role_name, Role, Widget};

verus! {

/// Whether a text is on one line.
pub open spec fn flat(s: Seq<char>) -> bool {
    forall|i: int| 0 <= i < s.len() ==> #[trigger] s[i] != '\n'
}

/// Whether a text is whole lines, none of them blank.
pub open spec fn whole_lines(s: Seq<char>) -> bool {
    s.len() > 0 ==> {
        &&& s[0] != '\n'
        &&& s.last() == '\n'
        &&& forall|i: int| 0 <= i < s.len() - 1 && #[trigger] s[i] == '\n' ==> s[i + 1] != '\n'
    }
}

/// Whether a text ends with a blank line and holds no other.
pub open spec fn one_blank_line(s: Seq<char>) -> bool {
    &&& s.len() > 2
    &&& s[0] != '\n'
    &&& s[s.len() - 1] == '\n'
    &&& s[s.len() - 2] == '\n'
    &&& forall|i: int| 0 <= i < s.len() - 2 && #[trigger] s[i] == '\n' ==> s[i + 1] != '\n'
}

proof fn lemma_flat_add(a: Seq<char>, b: Seq<char>)
    requires
        flat(a),
        flat(b),
    ensures
        flat(a + b),
{
    assert forall|i: int| 0 <= i < (a + b).len() implies #[trigger] (a + b)[i] != '\n' by {
        if i < a.len() {
            assert((a + b)[i] == a[i]);
        } else {
            assert((a + b)[i] == b[i - a.len()]);
        }
    }
}

proof fn lemma_lines_add(a: Seq<char>, b: Seq<char>)
    requires
        whole_lines(a),
        whole_lines(b),
    ensures
        whole_lines(a + b),
{
    let s = a + b;
    if a.len() == 0 {
        assert(s =~= b);
    } else if b.len() == 0 {
        assert(s =~= a);
    } else {
        assert(s.last() == b.last());
        assert forall|i: int| 0 <= i < s.len() - 1 && #[trigger] s[i] == '\n' implies s[i + 1]
            != '\n' by {
            if i < a.len() - 1 {
                assert(s[i] == a[i]);
            } else if i >= a.len() {
                assert(s[i] == b[i - a.len()]);
                assert(s[i + 1] == b[i + 1 - a.len()]);
            }
        }
    }
}

proof fn lemma_line(s: Seq<char>)
    requires
        flat(s),
        s.len() > 0,
    ensures
        whole_lines(s + seq!['\n']),
{
    let t = s + seq!['\n'];
    assert(t[0] == s[0]);
    assert forall|i: int| 0 <= i < t.len() - 1 && #[trigger] t[i] == '\n' implies t[i + 1] != '\n' by {
        assert(t[i] == s[i]);
    }
}

/// A complaint ends with the only blank line in it, whatever it is about.
pub proof fn a_complaint_has_one_blank_line(msg: Seq<char>)
    ensures
        one_blank_line(err_text(msg)),
{
    reveal_strlit("err ");
    reveal_strlit("\n\n");
    let flat_msg = one_line(msg);
    let s = err_text(msg);
    let head = "err "@ + flat_msg;
    lemma_flat_add("err "@, flat_msg);
    assert forall|i: int| 0 <= i < s.len() - 2 implies #[trigger] s[i] != '\n' by {
        assert(s[i] == head[i]);
    }
}

/// The reply that has nothing to say ends with the only blank line in it.
pub proof fn an_empty_reply_has_one_blank_line()
    ensures
        one_blank_line(ok_text()),
{
    reveal_strlit("ok\n\n");
}

proof fn lemma_body(body: Seq<char>)
    requires
        whole_lines(body),
    ensures
        one_blank_line(body_text(body)),
{
    reveal_strlit("ok\n");
    let s = body_text(body);
    let n = body.len() as int;
    assert(s[0] == 'o' && s[1] == 'k' && s[2] == '\n');
    assert(s[n + 3] == '\n');
    assert forall|i: int| 0 <= i < n implies #[trigger] s[i + 3] == body[i] by {}
    if n > 0 {
        assert(s[n - 1 + 3] == body[n - 1]);
    }
    assert forall|i: int| 0 <= i < s.len() - 2 && #[trigger] s[i] == '\n' implies s[i + 1] != '\n' by {
        if i == 2 {
            assert(s[0int + 3] == body[0]);
        } else if i > 2 {
            assert(s[(i - 3) + 3] == body[i - 3]);
            assert(s[(i - 2) + 3] == body[i - 2]);
        }
    }
}

proof fn lemma_numbers(n: int)
    ensures
        flat(signed_dec(n)),
        n >= 0 ==> flat(dec(n as nat)),
{
    let m = if n < 0 {
        (-n) as nat
    } else {
        n as nat
    };
    lemma_dec(m);
    assert(flat(dec(m))) by {
        assert forall|i: int| 0 <= i < dec(m).len() implies #[trigger] dec(m)[i] != '\n' by {
            assert(is_digit(dec(m)[i]));
        }
    }
    lemma_flat_add(seq!['-'], dec(m));
}

proof fn lemma_bounds(b: Bounds)
    ensures
        flat(bounds_text(b)),
{
    lemma_numbers(b.x as int);
    lemma_numbers(b.y as int);
    lemma_numbers(b.w as int);
    lemma_numbers(b.h as int);
    let c = seq![','];
    let x = signed_dec(b.x as int);
    let y = signed_dec(b.y as int);
    let w = signed_dec(b.w as int);
    lemma_flat_add(x, c);
    lemma_flat_add(x + c, y);
    lemma_flat_add(x + c + y, c);
    lemma_flat_add(x + c + y + c, w);
    lemma_flat_add(x + c + y + c + w, c);
    lemma_flat_add(x + c + y + c + w + c, signed_dec(b.h as int));
}

proof fn lemma_role(r: Role)
    ensures
        flat(role_name(r)),
{
    reveal_strlit("container");
    reveal_strlit("label");
    reveal_strlit("button");
    reveal_strlit("textfield");
    reveal_strlit("checkbox");
    reveal_strlit("scroll");
    reveal_strlit("list");
    reveal_strlit("slider");
    reveal_strlit("terminal");
    reveal_strlit("separator");
    reveal_strlit("image");
    reveal_strlit("icon");
    reveal_strlit("spacer");
    reveal_strlit("other");
}

proof fn lemma_escaped(s: Seq<char>)
    ensures
        flat(escaped(s)),
        s.len() > 0 ==> escaped(s).len() > 0,
{
    escaped_fields_hold_no_breaks(s);
}

proof fn lemma_joined(parts: Seq<Seq<char>>)
    requires
        forall|i: int| 0 <= i < parts.len() ==> flat(#[trigger] parts[i]),
    ensures
        flat(joined(parts, ',')),
    decreases parts.len(),
{
    if parts.len() == 1 {
        assert(flat(parts[0]));
    } else if parts.len() > 1 {
        let rest = parts.drop_first();
        assert forall|i: int| 0 <= i < rest.len() implies flat(#[trigger] rest[i]) by {
            assert(rest[i] == parts[i + 1]);
        }
        lemma_joined(rest);
        assert(flat(parts[0]));
        lemma_flat_add(parts[0], seq![',']);
        lemma_flat_add(parts[0] + seq![','], joined(rest, ','));
    }
}

proof fn lemma_flags<W: Widget>(ui: Ui<W>, id: WidgetId)
    ensures
        flat(flags_text(ui, id)),
{
    reveal_strlit("-");
    reveal_strlit("focused");
    reveal_strlit("hovered");
    reveal_strlit("focusable");
    reveal_strlit("enabled");
    let words = flag_words(ui, id);
    assert forall|i: int| 0 <= i < words.len() implies flat(#[trigger] words[i]) by {
        assert(words[i] == "focused"@ || words[i] == "hovered"@ || words[i] == "focusable"@
            || words[i] == "enabled"@);
    }
    lemma_joined(words);
}

proof fn lemma_described<W: Widget>(ui: Ui<W>, id: WidgetId)
    requires
        described(ui, id) is Some,
    ensures
        flat(described(ui, id)->0),
        described(ui, id)->0.len() > 0,
{
    let n = ui.node_at(id);
    let tab = seq!['\t'];
    let path = escaped(path_at(ui, id)->0);
    let name = escaped(or_dash(listed_name(ui, id)));
    let value = escaped(or_dash(n.access.value));
    let role = role_name(n.role);
    let bounds = bounds_text(n.bounds);
    lemma_escaped(path_at(ui, id)->0);
    lemma_escaped(or_dash(listed_name(ui, id)));
    lemma_escaped(or_dash(n.access.value));
    lemma_role(n.role);
    lemma_bounds(n.bounds);
    lemma_flags(ui, id);
    lemma_flat_add(path, tab);
    lemma_flat_add(path + tab, role);
    lemma_flat_add(path + tab + role, tab);
    lemma_flat_add(path + tab + role + tab, name);
    lemma_flat_add(path + tab + role + tab + name, tab);
    lemma_flat_add(path + tab + role + tab + name + tab, value);
    lemma_flat_add(path + tab + role + tab + name + tab + value, tab);
    lemma_flat_add(path + tab + role + tab + name + tab + value + tab, bounds);
    lemma_flat_add(path + tab + role + tab + name + tab + value + tab + bounds, tab);
    lemma_flat_add(
        path + tab + role + tab + name + tab + value + tab + bounds + tab,
        flags_text(ui, id),
    );
}

proof fn lemma_padding(depth: nat)
    ensures
        flat(padding(depth)),
    decreases depth,
{
    if depth > 0 {
        reveal_strlit("  ");
        lemma_padding((depth - 1) as nat);
        lemma_flat_add(padding((depth - 1) as nat), "  "@);
    }
}

proof fn lemma_lines<W: Widget>(
    ui: Ui<W>,
    ids: Seq<WidgetId>,
    bound: nat,
    depth: nat,
    indent: bool,
)
    ensures
        whole_lines(lines(ui, ids, bound, depth, indent)),
    decreases bound, ids.len(),
{
    if ids.len() > 0 {
        let id = ids[0];
        let rest = lines(ui, ids.drop_first(), bound, depth, indent);
        lemma_lines(ui, ids.drop_first(), bound, depth, indent);
        if ui@.nodes.dom().contains(id) && ui.rank()[id] < bound {
            let own = line_at(ui, id, depth, indent);
            let under = lines(ui, kids(ui, id), ui.rank()[id], depth + 1, indent);
            lemma_lines(ui, kids(ui, id), ui.rank()[id], depth + 1, indent);
            if let Some(line) = described(ui, id) {
                lemma_described(ui, id);
                lemma_padding(depth);
                let pad = if indent {
                    padding(depth)
                } else {
                    Seq::empty()
                };
                lemma_flat_add(pad, line);
                lemma_line(pad + line);
            }
            lemma_lines_add(own, under);
            lemma_lines_add(own + under, rest);
        }
    }
}

proof fn lemma_table(props: Seq<(Seq<char>, Seq<char>)>)
    requires
        forall|i: int|
            0 <= i < props.len() ==> flat((#[trigger] props[i]).0) && props[i].0.len() > 0,
    ensures
        whole_lines(table(props)),
    decreases props.len(),
{
    if props.len() > 0 {
        let head = props.drop_last();
        assert forall|i: int| 0 <= i < head.len() implies flat((#[trigger] head[i]).0)
            && head[i].0.len() > 0 by {
            assert(head[i] == props[i]);
        }
        lemma_table(head);
        let last = props[props.len() - 1];
        let line = last.0 + seq!['\t'] + escaped(last.1);
        lemma_escaped(last.1);
        assert(flat(last.0));
        lemma_flat_add(last.0, seq!['\t']);
        lemma_flat_add(last.0 + seq!['\t'], escaped(last.1));
        lemma_line(line);
        lemma_lines_add(table(head), line + seq!['\n']);
        assert(table(props) =~= table(head) + (line + seq!['\n']));
    }
}

proof fn lemma_properties<W: Widget>(ui: Ui<W>, id: WidgetId)
    ensures
        whole_lines(table(properties(ui, id))),
{
    reveal_strlit("path");
    reveal_strlit("role");
    reveal_strlit("name");
    reveal_strlit("value");
    reveal_strlit("text");
    reveal_strlit("bounds");
    reveal_strlit("enabled");
    reveal_strlit("focused");
    reveal_strlit("focusable");
    reveal_strlit("hovered");
    reveal_strlit("children");
    reveal_strlit("actions");
    lemma_table(properties(ui, id));
}

/// A reply to a request line ends with a blank line and holds no other, so
/// that a client knows where it ends, whatever the widgets are called and
/// hold.
pub proof fn a_reply_has_one_blank_line<W: Widget>(ui: Ui<W>, line: Seq<char>)
    ensures
        handled(ui, line) matches StepView::Reply(text) ==> one_blank_line(text),
{
    assert forall|msg: Seq<char>| one_blank_line(#[trigger] err_text(msg)) by {
        a_complaint_has_one_blank_line(msg);
    }
    assert forall|path: Seq<char>, indent: bool| list_of(ui, path, indent) matches Ok(
        body,
    ) implies one_blank_line(body_text((#[trigger] list_of(ui, path, indent))->Ok_0)) by {
        if let Ok(body) = list_of(ui, path, indent) {
            let id = resolved(ui, path)->0;
            if ui@.nodes.dom().contains(id) {
                lemma_lines(ui, seq![id], ui.rank()[id] + 1, 0, indent);
            }
            lemma_body(body);
        }
    }
    assert forall|path: Seq<char>, prop: Option<Seq<char>>| got(ui, path, prop) matches Ok(
        body,
    ) implies one_blank_line(body_text((#[trigger] got(ui, path, prop))->Ok_0)) by {
        if let Ok(body) = got(ui, path, prop) {
            let id = resolved(ui, path)->0;
            lemma_properties(ui, id);
            if let Some(want) = prop {
                let v = value_under(properties(ui, id), want)->0;
                lemma_escaped(v);
                reveal_strlit("-\n");
                if v.len() > 0 {
                    lemma_line(escaped(v));
                    assert(escaped(v).push('\n') =~= escaped(v) + seq!['\n']);
                }
            }
            lemma_body(body);
        }
    }
}

} // verus!
