//! What a script may rely on: what it says arrives, what it reads is what the
//! tree holds, and what it is told is what came of it.

use vstd::prelude::*;

use crate::arena::{Bounds, WidgetId};
use crate::chars::{dec, is_digit, lemma_dec, signed_dec};
use crate::error::Error;
use crate::event::Handled;
use crate::introspect::addressing::{a_piece_more_is_the_last, lacks};
use crate::introspect::answer::{
    assignment, at_home, bounds_text, complaint, described, flag_words, flags_text, got, handled,
    hovered_at, line_at, lines, list_of, listing, or_empty, padding, properties, read_only,
    reads_as_text, table, value_under, EffectView, OwedView, StepView,
};
use crate::introspect::path::{path_at, resolved};
use crate::introspect::request::{
    a_request_asks_for_what_it_says, a_value_arrives_whole, an_argument_arrives_whole, body_text,
    err_text, one_word, ok_text, tight,
};
use crate::introspect::text::{escaped, is_addressable, joined, split};
use crate::tree::{linked, ranked};
use crate::ui::Ui;
use crate::widget::{role_name, Role, Widget};

verus! {

// ---------------------------------------------------------------------
// what a script says arrives
// ---------------------------------------------------------------------

/// A `do` line invokes the action that it names on the widget that its path
/// names, with the whole of its argument, or with none where it has none.
pub proof fn an_action_is_delivered_whole<W: Widget>(
    ui: Ui<W>,
    path: Seq<char>,
    action: Seq<char>,
    arg: Seq<char>,
)
    requires
        one_word(path),
        one_word(action),
        tight(escaped(arg)),
        resolved(ui, path) is Some,
    ensures
        handled(ui, "do "@ + path + seq![' '] + action + seq![' '] + escaped(arg)) matches StepView::Run(
            EffectView::Act { id, action: a, arg: g, owed },
        ) && Some(id) == resolved(ui, path) && a == action && g == (if arg.len() == 0 {
            None
        } else {
            Some(arg)
        }) && owed == OwedView::Action(action),
{
    an_argument_arrives_whole(path, action, arg);
}

/// A `set` line hands the whole of its value to the setter of the property
/// that it names: the action `set_` and the property's name, on the widget
/// that its path names. A name is set by the tree itself; so is the focus,
/// which `true` gives and anything else drops; and what can only be read is
/// refused with nothing done.
pub proof fn a_value_is_delivered_whole<W: Widget>(
    ui: Ui<W>,
    path: Seq<char>,
    prop: Seq<char>,
    value: Seq<char>,
)
    requires
        one_word(path),
        one_word(prop),
        tight(escaped(value)),
        resolved(ui, path) is Some,
    ensures
        ({
            let step = handled(ui, "set "@ + path + seq![' '] + prop + seq![' '] + escaped(value));
            &&& !read_only(prop) && prop != "focused"@ ==> (step matches StepView::Run(
                EffectView::Act { id, action, arg, owed },
            ) && Some(id) == resolved(ui, path) && action == "set_"@ + prop && arg == Some(value)
                && owed == (if prop == "name"@ {
                OwedView::Nothing
            } else {
                OwedView::Property(prop)
            }))
            &&& prop == "focused"@ && value == "true"@ ==> (step matches StepView::Run(
                EffectView::Act { id, action, arg, owed },
            ) && Some(id) == resolved(ui, path) && action == "focus"@ && arg is None
                && owed is Nothing)
            &&& prop == "focused"@ && value != "true"@ ==> step == StepView::Run(EffectView::Blur)
            &&& prop == "path"@ || prop == "role"@ || prop == "bounds"@ || prop == "children"@
                || prop == "actions"@ || prop == "hovered"@ || prop == "focusable"@
                ==> step is Reply
        }),
{
    a_value_arrives_whole(path, prop, value);
    reveal_strlit("set_");
    reveal_strlit("name");
    reveal_strlit("set_name");
    assert("set_"@ + "name"@ =~= "set_name"@);
    lemma_property_names();
}

proof fn lemma_property_names()
    ensures
        !read_only("name"@),
        !read_only("focused"@),
        "name"@ != "focused"@,
        !read_only("value"@),
        !read_only("text"@),
{
    reveal_strlit("name");
    reveal_strlit("focused");
    reveal_strlit("value");
    reveal_strlit("text");
    reveal_strlit("path");
    reveal_strlit("role");
    reveal_strlit("bounds");
    reveal_strlit("children");
    reveal_strlit("actions");
    reveal_strlit("hovered");
    reveal_strlit("focusable");
    assert("name"@[0] == 'n' && "path"@[0] == 'p' && "role"@[0] == 'r' && "text"@[0] == 't');
    assert("focused"@[0] == 'f' && "actions"@[0] == 'a' && "hovered"@[0] == 'h');
    assert("focused"@.len() == 7 && "name"@.len() == 4 && "value"@.len() == 5);
    assert("bounds"@.len() == 6 && "children"@.len() == 8 && "focusable"@.len() == 9);
}

/// A path that names no widget is answered with a complaint, whatever was
/// asked of it, and nothing is done.
pub proof fn no_such_widget<W: Widget>(
    ui: Ui<W>,
    path: Seq<char>,
    word: Seq<char>,
    value: Seq<char>,
)
    requires
        one_word(path),
        one_word(word),
        tight(escaped(value)),
        resolved(ui, path) is None,
        path != "*"@,
    ensures
        ({
            let no = StepView::Reply(err_text("no such widget"@));
            &&& handled(ui, "do "@ + path + seq![' '] + word + seq![' '] + escaped(value)) == no
            &&& handled(ui, "set "@ + path + seq![' '] + word + seq![' '] + escaped(value)) == no
            &&& handled(ui, joined(seq!["get"@, path], ' ')) == no
            &&& handled(ui, joined(seq!["get"@, path, word], ' ')) == no
            &&& handled(ui, joined(seq!["list"@, path], ' ')) == no
            &&& handled(ui, joined(seq!["tree"@, path], ' ')) == no
            &&& handled(ui, joined(seq!["watch"@, path], ' ')) == no
        }),
{
    a_value_arrives_whole(path, word, value);
    an_argument_arrives_whole(path, word, value);
    a_request_asks_for_what_it_says(path, word);
}

/// A watch of a path that names a widget starts, and so does one of
/// everything where there is a window; a screenshot and the end of the app
/// are the caller's to see to.
pub proof fn a_watch_of_something_starts<W: Widget>(ui: Ui<W>, path: Seq<char>)
    requires
        one_word(path),
    ensures
        resolved(ui, path) is Some && path != "*"@ ==> handled(
            ui,
            joined(seq!["watch"@, path], ' '),
        ) == StepView::Watch(path),
        ui@.root is Some ==> handled(ui, "watch"@) == StepView::Watch("*"@),
        handled(ui, "shot"@) is Shot,
        handled(ui, "quit"@) is Quit,
{
    a_request_asks_for_what_it_says(path, path);
}

// ---------------------------------------------------------------------
// what a script reads is what the tree holds
// ---------------------------------------------------------------------

/// Reading one property of a widget is answered with its value on one line,
/// or with `-` where it is empty.
proof fn lemma_read<W: Widget>(ui: Ui<W>, path: Seq<char>, key: Seq<char>, id: WidgetId, i: int)
    requires
        resolved(ui, path) == Some(id),
        at_home(ui, id),
        0 <= i < properties(ui, id).len(),
        properties(ui, id)[i].0 == key,
        forall|k: int| 0 <= k < i ==> (#[trigger] properties(ui, id)[k]).0 != key,
    ensures
        got(ui, path, Some(key)) == Ok::<Seq<char>, Seq<char>>(
            answer_line(properties(ui, id)[i].1),
        ),
{
    lemma_value_under(properties(ui, id), key, i);
}

proof fn lemma_value_under(props: Seq<(Seq<char>, Seq<char>)>, key: Seq<char>, i: int)
    requires
        0 <= i < props.len(),
        props[i].0 == key,
        forall|k: int| 0 <= k < i ==> (#[trigger] props[k]).0 != key,
    ensures
        value_under(props, key) == Some(props[i].1),
    decreases props.len(),
{
    if i > 0 {
        assert(props[0].0 != key);
        let rest = props.drop_first();
        assert forall|k: int| 0 <= k < i - 1 implies (#[trigger] rest[k]).0 != key by {
            assert(rest[k] == props[k + 1]);
        }
        lemma_value_under(rest, key, i - 1);
    }
}

/// A value as the whole of an answer.
pub open spec fn answer_line(value: Seq<char>) -> Seq<char> {
    if value.len() == 0 {
        "-\n"@
    } else {
        escaped(value).push('\n')
    }
}

proof fn lemma_keys()
    ensures
        "path"@ != "role"@,
        "path"@ != "name"@ && "role"@ != "name"@,
        "path"@ != "value"@ && "role"@ != "value"@ && "name"@ != "value"@,
        "path"@ != "text"@ && "role"@ != "text"@ && "name"@ != "text"@ && "value"@ != "text"@,
        forall|k: Seq<char>|
            k == "path"@ || k == "role"@ || k == "name"@ || k == "value"@ || k == "text"@
                ==> #[trigger] k.len() <= 5,
        "bounds"@.len() == 6,
        "enabled"@.len() == 7 && "focused"@.len() == 7 && "hovered"@.len() == 7 && "actions"@.len()
            == 7,
        "enabled"@ != "focused"@ && "enabled"@ != "hovered"@ && "focused"@ != "hovered"@,
        "actions"@ != "enabled"@ && "actions"@ != "focused"@ && "actions"@ != "hovered"@,
        "focusable"@.len() == 9,
        "children"@.len() == 8,
{
    reveal_strlit("path");
    reveal_strlit("role");
    reveal_strlit("name");
    reveal_strlit("value");
    reveal_strlit("text");
    reveal_strlit("bounds");
    reveal_strlit("enabled");
    reveal_strlit("focused");
    reveal_strlit("focusable");
    reveal_strlit("hovered");
    reveal_strlit("children");
    reveal_strlit("actions");
    assert("path"@[0] == 'p' && "role"@[0] == 'r' && "name"@[0] == 'n' && "text"@[0] == 't');
    assert("value"@[0] == 'v');
    assert("enabled"@[0] == 'e' && "focused"@[0] == 'f' && "hovered"@[0] == 'h' && "actions"@[0]
        == 'a');
}

/// What a script reads of a widget is what the tree holds of it: its name
/// where a path can hold it, what it says as its value and as its text where
/// its role reads as text, whether it has the focus, is under the pointer,
/// can have the focus and reacts to input, and how many children it has.
pub proof fn reading_tells_what_the_tree_holds<W: Widget>(ui: Ui<W>, path: Seq<char>, id: WidgetId)
    requires
        resolved(ui, path) == Some(id),
        at_home(ui, id),
    ensures
        ({
            let st = ui@.nodes[id].state;
            let w = ui@.nodes[id].widget->0;
            let said = or_empty(w.access_view().value);
            &&& got(ui, path, Some("role"@)) == Ok::<Seq<char>, Seq<char>>(
                answer_line(role_name(w.role_view())),
            )
            &&& st.name is Some && is_addressable(st.name->0) ==> got(ui, path, Some("name"@))
                == Ok::<Seq<char>, Seq<char>>(answer_line(st.name->0))
            &&& st.name is None ==> got(ui, path, Some("name"@)) == Ok::<Seq<char>, Seq<char>>(
                "-\n"@,
            )
            &&& got(ui, path, Some("value"@)) == Ok::<Seq<char>, Seq<char>>(answer_line(said))
            &&& got(ui, path, Some("text"@)) == Ok::<Seq<char>, Seq<char>>(
                answer_line(
                    if reads_as_text(w.role_view()) {
                        said
                    } else {
                        Seq::empty()
                    },
                ),
            )
            &&& got(ui, path, Some("focused"@)) == Ok::<Seq<char>, Seq<char>>(
                yes_or_no(st.focused),
            )
            &&& got(ui, path, Some("focusable"@)) == Ok::<Seq<char>, Seq<char>>(
                yes_or_no(st.focusable),
            )
            &&& got(ui, path, Some("hovered"@)) == Ok::<Seq<char>, Seq<char>>(
                yes_or_no(st.hovered),
            )
            &&& got(ui, path, Some("enabled"@)) == Ok::<Seq<char>, Seq<char>>(
                yes_or_no(w.enabled_view()),
            )
            &&& got(ui, path, Some("children"@)) == Ok::<Seq<char>, Seq<char>>(
                answer_line(dec(st.children.len())),
            )
            &&& path_at(ui, id) matches Some(p) ==> got(ui, path, Some("path"@)) == Ok::<
                Seq<char>,
                Seq<char>,
            >(answer_line(p))
        }),
{
    let props = properties(ui, id);
    lemma_keys();
    lemma_words_of_truth();
    assert(props.len() == 12);
    lemma_read(ui, path, "path"@, id, 0);
    lemma_read(ui, path, "role"@, id, 1);
    lemma_read(ui, path, "name"@, id, 2);
    lemma_read(ui, path, "value"@, id, 3);
    lemma_read(ui, path, "text"@, id, 4);
    assert(props[5].0 == "bounds"@);
    lemma_read(ui, path, "enabled"@, id, 6);
    lemma_read(ui, path, "focused"@, id, 7);
    lemma_read(ui, path, "focusable"@, id, 8);
    lemma_read(ui, path, "hovered"@, id, 9);
    lemma_read(ui, path, "children"@, id, 10);
}

/// `true` or `false` as the whole of an answer.
pub open spec fn yes_or_no(b: bool) -> Seq<char> {
    if b {
        "true\n"@
    } else {
        "false\n"@
    }
}

proof fn lemma_words_of_truth()
    ensures
        answer_line("true"@) == "true\n"@,
        answer_line("false"@) == "false\n"@,
        answer_line(Seq::<char>::empty()) == "-\n"@,
{
    reveal_strlit("true");
    reveal_strlit("true\n");
    reveal_strlit("false");
    reveal_strlit("false\n");
    lemma_plain_escaped("true"@);
    lemma_plain_escaped("false"@);
    assert("true"@.push('\n') =~= "true\n"@);
    assert("false"@.push('\n') =~= "false\n"@);
}

/// A text without tabs, line breaks and backslashes stands as it is.
proof fn lemma_plain_escaped(s: Seq<char>)
    requires
        forall|i: int|
            0 <= i < s.len() ==> #[trigger] s[i] != '\t' && s[i] != '\n' && s[i] != '\r' && s[i]
                != '\\',
    ensures
        escaped(s) == s,
    decreases s.len(),
{
    if s.len() > 0 {
        let rest = s.drop_first();
        assert forall|i: int| 0 <= i < rest.len() implies #[trigger] rest[i] != '\t' && rest[i]
            != '\n' && rest[i] != '\r' && rest[i] != '\\' by {
            assert(rest[i] == s[i + 1]);
        }
        lemma_plain_escaped(rest);
        assert(s[0] != '\\');
        assert(escaped(s) =~= s);
    } else {
        assert(escaped(s) =~= s);
    }
}

/// Only what stands in the way of a field is escaped: a text without tabs,
/// line breaks and backslashes is sent as it stands.
pub proof fn plain_text_is_sent_as_it_stands(s: Seq<char>)
    requires
        forall|i: int|
            0 <= i < s.len() ==> #[trigger] s[i] != '\t' && s[i] != '\n' && s[i] != '\r' && s[i]
                != '\\',
    ensures
        escaped(s) == s,
{
    lemma_plain_escaped(s);
}

/// A property that no widget has is refused by name.
pub proof fn an_unknown_property_is_refused<W: Widget>(
    ui: Ui<W>,
    path: Seq<char>,
    id: WidgetId,
    key: Seq<char>,
)
    requires
        resolved(ui, path) == Some(id),
        at_home(ui, id),
        forall|k: int| 0 <= k < properties(ui, id).len() ==> (#[trigger] properties(ui, id)[k]).0 != key,
    ensures
        got(ui, path, Some(key)) is Err,
{
    lemma_none_under(properties(ui, id), key);
}

proof fn lemma_none_under(props: Seq<(Seq<char>, Seq<char>)>, key: Seq<char>)
    requires
        forall|k: int| 0 <= k < props.len() ==> (#[trigger] props[k]).0 != key,
    ensures
        value_under(props, key) is None,
    decreases props.len(),
{
    if props.len() > 0 {
        assert(props[0].0 != key);
        let rest = props.drop_first();
        assert forall|k: int| 0 <= k < rest.len() implies (#[trigger] rest[k]).0 != key by {
            assert(rest[k] == props[k + 1]);
        }
        lemma_none_under(rest, key);
    }
}

/// The flags that are listed of a widget are those that hold of it, and no
/// other; where none holds, a dash stands for them.
pub proof fn flags_tell_what_holds<W: Widget>(ui: Ui<W>, id: WidgetId)
    ensures
        ({
            let st = ui@.nodes[id].state;
            let ws = flag_words(ui, id);
            &&& ws.contains("focused"@) <==> st.focused
            &&& ws.contains("hovered"@) <==> hovered_at(ui, id)
            &&& ws.contains("focusable"@) <==> st.focusable
            &&& ws.contains("enabled"@) <==> ui.enabled_at(id)
            &&& forall|k: int|
                0 <= k < ws.len() ==> (#[trigger] ws[k] == "focused"@ || ws[k] == "hovered"@ || ws[k]
                    == "focusable"@ || ws[k] == "enabled"@)
            &&& ws.no_duplicates()
            &&& ws.len() == 0 ==> flags_text(ui, id) == "-"@
        }),
{
    lemma_keys();
    let st = ui@.nodes[id].state;
    let ws = flag_words(ui, id);
    let f = if st.focused {
        1int
    } else {
        0
    };
    let h = f + if hovered_at(ui, id) {
        1int
    } else {
        0
    };
    let t = h + if st.focusable {
        1int
    } else {
        0
    };
    if st.focused {
        assert(ws[0] == "focused"@);
    }
    if hovered_at(ui, id) {
        assert(ws[f] == "hovered"@);
    }
    if st.focusable {
        assert(ws[h] == "focusable"@);
    }
    if ui.enabled_at(id) {
        assert(ws[t] == "enabled"@);
    }
}

// ---------------------------------------------------------------------
// listings
// ---------------------------------------------------------------------

/// The listings of some widgets, one behind the other.
pub open spec fn listings<W: Widget>(
    ui: Ui<W>,
    ids: Seq<WidgetId>,
    depth: nat,
    indent: bool,
) -> Seq<char>
    decreases ids.len(),
{
    if ids.len() == 0 {
        Seq::empty()
    } else {
        listings(ui, ids.drop_last(), depth, indent) + listing(ui, ids.last(), depth, indent)
    }
}

proof fn lemma_listings<W: Widget>(
    ui: Ui<W>,
    ids: Seq<WidgetId>,
    bound: nat,
    depth: nat,
    indent: bool,
)
    requires
        forall|i: int|
            0 <= i < ids.len() ==> ui@.nodes.dom().contains(#[trigger] ids[i])
                && ui.rank()[ids[i]] < bound,
    ensures
        lines(ui, ids, bound, depth, indent) == listings(ui, ids, depth, indent),
    decreases ids.len(),
{
    if ids.len() > 0 {
        let head = ids.drop_last();
        let x = ids.last();
        assert(ids =~= head.push(x));
        assert(ids[ids.len() - 1] == x);
        assert forall|i: int| 0 <= i < head.len() implies ui@.nodes.dom().contains(
            #[trigger] head[i],
        ) && ui.rank()[head[i]] < bound by {
            assert(head[i] == ids[i]);
        }
        lemma_listings(ui, head, bound, depth, indent);
        crate::introspect::answer::lemma_lines_push(ui, head, x, bound, depth, indent);
    }
}

/// A listing is a widget's own line and then the listings of its children, in
/// their order and one level deeper: so everything under a widget is listed,
/// once, behind what it is in.
pub proof fn a_listing_is_in_tree_order<W: Widget>(
    ui: &Ui<W>,
    id: WidgetId,
    depth: nat,
    indent: bool,
)
    requires
        ui.wf(),
        ui@.nodes.dom().contains(id),
    ensures
        listing(*ui, id, depth, indent) == line_at(*ui, id, depth, indent) + listings(
            *ui,
            ui@.nodes[id].state.children,
            depth + 1,
            indent,
        ),
        described(*ui, id) matches Some(line) ==> line_at(*ui, id, depth, indent) == (if indent {
            spaces(2 * depth)
        } else {
            Seq::empty()
        }) + line + seq!['\n'],
        described(*ui, id) is None ==> line_at(*ui, id, depth, indent).len() == 0,
{
    let ids = ui@.nodes[id].state.children;
    ui.tree_shape();
    crate::introspect::answer::lemma_listing(*ui, id, depth, indent);
    assert forall|i: int| 0 <= i < ids.len() implies ui@.nodes.dom().contains(#[trigger] ids[i])
        && ui.rank()[ids[i]] < ui.rank()[id] by {
        reveal(linked);
        reveal(ranked);
        assert(ui@.nodes[id].state.children[i] == ids[i]);
    }
    lemma_listings(*ui, ids, ui.rank()[id], depth + 1, indent);
    lemma_padding(depth);
}

/// So many spaces.
pub open spec fn spaces(n: nat) -> Seq<char> {
    Seq::new(n, |i: int| ' ')
}

proof fn lemma_padding(depth: nat)
    ensures
        padding(depth) == spaces(2 * depth),
    decreases depth,
{
    reveal_strlit("  ");
    if depth > 0 {
        lemma_padding((depth - 1) as nat);
    }
    assert(padding(depth) =~= spaces(2 * depth));
}

/// The line of a widget starts with its path and a tab; a widget that is out
/// of its slot, or that no path leads to, has no line.
pub proof fn a_line_starts_with_the_path<W: Widget>(ui: Ui<W>, id: WidgetId)
    ensures
        at_home(ui, id) && path_at(ui, id) is Some <==> described(ui, id) is Some,
        described(ui, id) matches Some(line) ==> (escaped(path_at(ui, id)->0).push(
            '\t',
        )).is_prefix_of(line),
{
    if let Some(line) = described(ui, id) {
        let head = escaped(path_at(ui, id)->0).push('\t');
        assert(line.take(head.len() as int) =~= head);
    }
}

/// All properties of a widget are told one on a line, in order: its name, a
/// tab and its value.
pub proof fn a_table_has_a_line_for_each(props: Seq<(Seq<char>, Seq<char>)>, key: Seq<char>, value: Seq<char>)
    ensures
        table(props.push((key, value))) == table(props) + key + seq!['\t'] + escaped(value) + seq![
            '\n',
        ],
        table(Seq::empty()).len() == 0,
{
    assert(props.push((key, value)).drop_last() =~= props);
}

// ---------------------------------------------------------------------
// what a script is told is what came of it
// ---------------------------------------------------------------------

/// A request is answered `ok` exactly where its action was handled, or where
/// nothing was owed and nothing went wrong. Otherwise the answer is a
/// complaint: what went wrong, or the name that nothing goes by.
pub proof fn an_answer_tells_what_came_of_it(owed: OwedView, end: Result<Handled, Error>)
    ensures
        complaint(owed, end) is None <==> (end matches Ok(h) && (h is Yes || owed is Nothing)),
        end matches Err(e) ==> complaint(owed, end) == Some(e.words()),
        end is Ok && end->Ok_0 is No ==> (owed matches OwedView::Action(a) ==> complaint(owed, end)
            == Some("unknown action `"@ + a + "`"@)),
        end is Ok && end->Ok_0 is No ==> (owed matches OwedView::Property(p) ==> complaint(
            owed,
            end,
        ) == Some("no settable property `"@ + p + "`"@)),
{
}

/// A reply says in its first word whether the request succeeded.
pub proof fn a_reply_starts_with_its_outcome(msg: Seq<char>, body: Seq<char>)
    ensures
        err_text(msg).len() >= 4 && err_text(msg).take(4) == seq!['e', 'r', 'r', ' '],
        body_text(body).len() >= 3 && body_text(body).take(3) == seq!['o', 'k', '\n'],
        body_text(body).skip(3) == body.push('\n'),
        ok_text() == seq!['o', 'k', '\n', '\n'],
        (forall|i: int| 0 <= i < msg.len() ==> #[trigger] msg[i] != '\n' && msg[i] != '\r')
            ==> err_text(msg) == seq!['e', 'r', 'r', ' '] + msg + seq!['\n', '\n'],
{
    reveal_strlit("err ");
    reveal_strlit("\n\n");
    reveal_strlit("ok\n");
    reveal_strlit("ok\n\n");
    assert(err_text(msg).take(4) =~= seq!['e', 'r', 'r', ' ']);
    assert(body_text(body).take(3) =~= seq!['o', 'k', '\n']);
    assert(body_text(body).skip(3) =~= body.push('\n'));
    assert(ok_text() =~= seq!['o', 'k', '\n', '\n']);
    if forall|i: int| 0 <= i < msg.len() ==> #[trigger] msg[i] != '\n' && msg[i] != '\r' {
        assert(err_text(msg) =~= seq!['e', 'r', 'r', ' '] + msg + seq!['\n', '\n']);
    }
}

/// The line about a widget says, between tabs, its path, its role, the name it
/// is known by, its value, where it is and what holds of it, in that order,
/// with a dash for what it lacks.
pub proof fn a_line_says_what_the_widget_is<W: Widget>(ui: Ui<W>, id: WidgetId)
    requires
        at_home(ui, id),
        path_at(ui, id) is Some,
    ensures
        ({
            let st = ui@.nodes[id].state;
            let w = ui@.nodes[id].widget->0;
            let tab = seq!['\t'];
            let name = match st.name {
                Some(n) => if is_addressable(n) {
                    n
                } else {
                    seq!['-']
                },
                None => seq!['-'],
            };
            let value = match w.access_view().value {
                Some(v) => v,
                None => seq!['-'],
            };
            described(ui, id) == Some(
                escaped(path_at(ui, id)->0) + tab + role_name(w.role_view()) + tab + escaped(name)
                    + tab + escaped(value) + tab + bounds_text(st.bounds) + tab + flags_text(ui, id),
            )
        }),
{
    reveal_strlit("-");
    assert("-"@ =~= seq!['-']);
}

proof fn lemma_plain_number(n: int)
    ensures
        lacks(signed_dec(n), ','),
{
    if n < 0 {
        lemma_dec((-n) as nat);
        let d = dec((-n) as nat);
        assert forall|i: int| 0 <= i < signed_dec(n).len() implies signed_dec(n)[i] != ',' by {
            if i > 0 {
                assert(is_digit(d[i - 1]));
            }
        }
    } else {
        lemma_dec(n as nat);
        let d = dec(n as nat);
        assert forall|i: int| 0 <= i < d.len() implies d[i] != ',' by {
            assert(is_digit(d[i]));
        }
    }
}

/// Where a widget is told as four numbers between commas: how far it is from
/// the left and from the top, its width and its height.
pub proof fn bounds_are_four_numbers(b: Bounds)
    ensures
        split(bounds_text(b), ',') == seq![
            signed_dec(b.x as int),
            signed_dec(b.y as int),
            signed_dec(b.w as int),
            signed_dec(b.h as int),
        ],
{
    let x = signed_dec(b.x as int);
    let y = signed_dec(b.y as int);
    let w = signed_dec(b.w as int);
    let h = signed_dec(b.h as int);
    lemma_plain_number(b.x as int);
    lemma_plain_number(b.y as int);
    lemma_plain_number(b.w as int);
    lemma_plain_number(b.h as int);
    a_piece_more_is_the_last(x, ',', y);
    lemma_alone(x);
    a_piece_more_is_the_last(x + seq![','] + y, ',', w);
    a_piece_more_is_the_last(x + seq![','] + y + seq![','] + w, ',', h);
    assert(split(bounds_text(b), ',') =~= seq![x, y, w, h]);
}

proof fn lemma_alone(x: Seq<char>)
    requires
        lacks(x, ','),
    ensures
        split(x, ',') == seq![x],
{
    a_piece_more_is_the_last(Seq::empty(), ',', x);
}

/// Where a widget is and what can be done with it are read as they are told in
/// its line, and all that can be read of it is told under these names, in this
/// order.
pub proof fn reading_tells_where_it_is_and_what_it_does<W: Widget>(
    ui: Ui<W>,
    path: Seq<char>,
    id: WidgetId,
)
    requires
        resolved(ui, path) == Some(id),
        at_home(ui, id),
    ensures
        got(ui, path, Some("bounds"@)) == Ok::<Seq<char>, Seq<char>>(
            answer_line(bounds_text(ui@.nodes[id].state.bounds)),
        ),
        got(ui, path, Some("actions"@)) == Ok::<Seq<char>, Seq<char>>(
            answer_line(joined(ui@.nodes[id].widget->0.access_view().actions, ',')),
        ),
        properties(ui, id).map_values(|p: (Seq<char>, Seq<char>)| p.0) == seq![
            "path"@,
            "role"@,
            "name"@,
            "value"@,
            "text"@,
            "bounds"@,
            "enabled"@,
            "focused"@,
            "focusable"@,
            "hovered"@,
            "children"@,
            "actions"@,
        ],
{
    let props = properties(ui, id);
    lemma_keys();
    assert(props.len() == 12);
    lemma_read(ui, path, "bounds"@, id, 5);
    lemma_read(ui, path, "actions"@, id, 11);
    assert(props.map_values(|p: (Seq<char>, Seq<char>)| p.0) =~= seq![
        "path"@,
        "role"@,
        "name"@,
        "value"@,
        "text"@,
        "bounds"@,
        "enabled"@,
        "focused"@,
        "focusable"@,
        "hovered"@,
        "children"@,
        "actions"@,
    ]);
}

/// What can be read of a widget and not set is where it is, what it is, what
/// it holds and what holds of it without it: setting any of that is refused by
/// name, and nothing else is.
pub proof fn what_can_only_be_read<W: Widget>(
    ui: Ui<W>,
    path: Seq<char>,
    prop: Seq<char>,
    value: Seq<char>,
)
    requires
        resolved(ui, path) is Some,
    ensures
        read_only(prop) <==> {
            ||| prop == "path"@
            ||| prop == "role"@
            ||| prop == "bounds"@
            ||| prop == "children"@
            ||| prop == "actions"@
            ||| prop == "hovered"@
            ||| prop == "focusable"@
        },
        read_only(prop) <==> assignment(ui, path, prop, value) is Err,
        read_only(prop) ==> assignment(ui, path, prop, value) == Err::<EffectView, Seq<char>>(
            seq!['`'] + prop + "` is read-only"@,
        ),
{
    lemma_keys();
    assert(read_only("focused"@) == false);
    assert(read_only("name"@) == false);
}

/// A list of a widget is the listing that starts with it, not indented itself;
/// a list of nothing is refused.
pub proof fn a_list_starts_with_the_widget<W: Widget>(
    ui: Ui<W>,
    path: Seq<char>,
    indent: bool,
    id: WidgetId,
)
    requires
        ui@.nodes.dom().contains(id),
    ensures
        resolved(ui, path) == Some(id) ==> list_of(ui, path, indent) == Ok::<Seq<char>, Seq<char>>(
            listing(ui, id, 0, indent),
        ),
        resolved(ui, path) is None ==> list_of(ui, path, indent) == Err::<Seq<char>, Seq<char>>(
            "no such widget"@,
        ),
{
}

/// What a label, a button, a field for text, a terminal or a list says can be
/// read as text; what any other widget says cannot.
pub proof fn some_values_are_texts(role: Role)
    ensures
        reads_as_text(role) <==> {
            ||| role is Label
            ||| role is Button
            ||| role is TextField
            ||| role is Terminal
            ||| role is List
        },
{
}

} // verus!
