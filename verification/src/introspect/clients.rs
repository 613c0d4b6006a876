//! The connected clients of the introspection socket: what they sent, what
//! they are owed, and what they watch.

use vstd::prelude::*;
use vstd::utf8::*;

use crate::arena::{text_view, WidgetId};
use crate::chars::{chars_of, owned, same, slice_of, text_eq};
use crate::introspect::answer::{bool_text, or_empty};
use crate::introspect::path::{path_at, path_of};
use crate::introspect::request::{has_line, line_len, lossy_text, ok_empty, ok_text, take_line};
use crate::introspect::text::{escape, escaped, MAX_LINE};
use crate::ui::access::{copy_text, nodes_view, Node, NodeView};
use crate::ui::{Ui, UiView};
use crate::widget::Widget;

verus! {

/// One connected client, over a connection of type `T`.
pub struct Client<T> {
    /// The connection.
    pub stream: T,
    input: Vec<u8>,
    output: Vec<u8>,
    written: usize,
    watching: Option<String>,
    done: bool,
}

/// What a [`Client`] holds, as mathematical values.
pub struct ClientView<T> {
    /// The connection.
    pub stream: T,
    /// Bytes received and not looked at yet.
    pub input: Seq<u8>,
    /// Bytes to send.
    pub output: Seq<u8>,
    /// How many of those are sent.
    pub written: int,
    /// The path the client watches.
    pub watching: Option<Seq<char>>,
    /// Whether the connection is finished with.
    pub done: bool,
}

impl<T> View for Client<T> {
    type V = ClientView<T>;

    closed spec fn view(&self) -> ClientView<T> {
        ClientView {
            stream: self.stream,
            input: self.input@,
            output: self.output@,
            written: self.written as int,
            watching: text_view(self.watching),
            done: self.done,
        }
    }
}

/// The bytes of a text.
pub open spec fn bytes_of(s: Seq<char>) -> Seq<u8> {
    encode_utf8(s)
}

fn push_bytes(out: &mut Vec<u8>, tail: &[u8])
    ensures
        final(out)@ == old(out)@ + tail@,
{
    let ghost head = out@;
    let mut i: usize = 0;
    while i < tail.len()
        invariant
            i <= tail.len(),
            out@ == head + tail@.take(i as int),
        decreases tail.len() - i,
    {
        out.push(tail[i]);
        assert(tail@.take(i + 1) =~= tail@.take(i as int).push(tail@[i as int]));
        assert(out@ =~= head + tail@.take(i + 1));
        i += 1;
    }
    assert(tail@.take(i as int) =~= tail@);
}

impl<T> Client<T> {
    /// The invariant: no more is sent than there was to send.
    pub open spec fn wf(&self) -> bool {
        0 <= self@.written <= self@.output.len()
    }

    /// A client that has just connected.
    pub fn new(stream: T) -> (c: Client<T>)
        ensures
            c.wf(),
            c@ == (ClientView {
                stream,
                input: Seq::empty(),
                output: Seq::empty(),
                written: 0,
                watching: None,
                done: false,
            }),
    {
        Client {
            stream,
            input: Vec::new(),
            output: Vec::new(),
            written: 0,
            watching: None,
            done: false,
        }
    }

    /// Whether the connection is finished with.
    pub fn is_done(&self) -> (r: bool)
        ensures
            r == self@.done,
    {
        self.done
    }

    /// Whether the client watches anything.
    pub fn is_watching(&self) -> (r: bool)
        ensures
            r == (self@.watching is Some),
    {
        self.watching.is_some()
    }

    /// The connection is finished with: it was closed, or failed.
    pub fn hang_up(&mut self)
        ensures
            final(self)@ == (ClientView { done: true, ..old(self)@ }),
    {
        self.done = true;
    }

    /// Queue a reply.
    pub fn send(&mut self, bytes: &[u8])
        requires
            old(self).wf(),
        ensures
            final(self).wf(),
            final(self)@ == (ClientView { output: old(self)@.output + bytes@, ..old(self)@ }),
    {
        push_bytes(&mut self.output, bytes);
    }

    /// Take what was read from the connection. A line that is too long to
    /// be a request is refused, and the connection with it.
    pub fn receive(&mut self, bytes: &[u8])
        requires
            old(self).wf(),
        ensures
            final(self).wf(),
            ({
                let input = old(self)@.input + bytes@;
                final(self)@ == if input.len() > MAX_LINE && line_len(input) == input.len() {
                    ClientView {
                        input,
                        output: old(self)@.output + bytes_of("err line too long\n\n"@),
                        done: true,
                        ..old(self)@
                    }
                } else {
                    ClientView { input, ..old(self)@ }
                }
            }),
    {
        push_bytes(&mut self.input, bytes);
        if self.input.len() > MAX_LINE && !has_line(&self.input) {
            push_bytes(&mut self.output, "err line too long\n\n".as_bytes());
            self.done = true;
        }
    }

    /// The next complete request line, if there is one.
    pub fn next_line(&mut self) -> (line: Option<String>)
        requires
            old(self).wf(),
        ensures
            final(self).wf(),
            ({
                let input = old(self)@.input;
                let n = line_len(input) as int;
                match line {
                    Some(s) => {
                        &&& n < input.len()
                        &&& s@ == lossy_text(input.take(n))
                        &&& valid_utf8(input.take(n)) ==> s@ == decode_utf8(input.take(n))
                        &&& final(self)@ == (ClientView { input: input.skip(n + 1), ..old(self)@ })
                    },
                    None => n == input.len() && final(self)@ == old(self)@,
                }
            }),
    {
        take_line(&mut self.input)
    }

    /// Watch a path from now on; the reply stays open for the events.
    pub fn watch(&mut self, path: String)
        requires
            old(self).wf(),
        ensures
            final(self).wf(),
            final(self)@ == (ClientView {
                watching: Some(path@),
                output: old(self)@.output + bytes_of("ok\n"@),
                ..old(self)@
            }),
    {
        self.watching = Some(path);
        push_bytes(&mut self.output, "ok\n".as_bytes());
    }

    /// The client asked the app to stop: it is answered, and done with.
    pub fn quit(&mut self)
        requires
            old(self).wf(),
        ensures
            final(self).wf(),
            final(self)@ == (ClientView {
                done: true,
                output: old(self)@.output + bytes_of(ok_text()),
                ..old(self)@
            }),
    {
        let text = ok_empty();
        push_bytes(&mut self.output, text.as_str().as_bytes());
        self.done = true;
    }

    /// What is left to send.
    pub fn unsent(&self) -> (bytes: &[u8])
        requires
            self.wf(),
        ensures
            bytes@ == self@.output.skip(self@.written),
    {
        let bytes = vstd::slice::slice_subrange(self.output.as_slice(), self.written, self.output.len());
        assert(bytes@ =~= self@.output.skip(self@.written));
        bytes
    }

    /// The connection took `n` of the unsent bytes. Taking none of them
    /// means that it is gone; once all are taken the queue is empty again.
    pub fn sent(&mut self, n: usize)
        requires
            old(self)@.written + n <= old(self)@.output.len(),
            0 <= old(self)@.written < old(self)@.output.len(),
        ensures
            final(self).wf(),
            ({
                let v = old(self)@;
                final(self)@ == if n == 0 {
                    ClientView { done: true, ..v }
                } else if v.written + n == v.output.len() {
                    ClientView { output: Seq::empty(), written: 0, ..v }
                } else {
                    ClientView { written: v.written + n, ..v }
                }
            }),
    {
        if n == 0 {
            self.done = true;
            return;
        }
        let all: usize = self.output.len();
        self.written = self.written + n;
        if self.written == all {
            self.output.clear();
            self.written = 0;
        }
    }
}

// ---------------------------------------------------------------------
// events
// ---------------------------------------------------------------------

/// Whether a `watch` path covers `path`: `*` covers everything, and a path
/// covers itself and its descendants.
pub open spec fn covers(watch: Seq<char>, path: Seq<char>) -> bool {
    ||| watch == "*"@
    ||| watch == path
    ||| watch.len() < path.len() && path.take(watch.len() as int) == watch && path[watch.len() as int]
        == '/'
}

/// Whether a `watch` path covers `path`.
pub fn watch_matches(watch: &str, path: &str) -> (r: bool)
    ensures
        r == covers(watch@, path@),
{
    if text_eq(watch, "*") || text_eq(watch, path) {
        return true;
    }
    let w = chars_of(watch);
    let p = chars_of(path);
    if w.len() < p.len() && p[w.len()] == '/' {
        let head = slice_of(p.as_slice(), 0, w.len());
        assert(head@ =~= p@.take(w@.len() as int));
        same(head.as_slice(), w.as_slice())
    } else {
        false
    }
}

/// What a watcher was last told of a widget.
#[derive(Debug)]
pub struct Seen {
    /// The widget.
    pub id: WidgetId,
    /// Its value; empty where it has none.
    pub value: String,
    /// Whether it had the focus.
    pub focused: bool,
}

/// What a [`Seen`] holds, as mathematical values.
pub struct SeenView {
    /// The widget.
    pub id: WidgetId,
    /// Its value.
    pub value: Seq<char>,
    /// Whether it had the focus.
    pub focused: bool,
}

impl View for Seen {
    type V = SeenView;

    open spec fn view(&self) -> SeenView {
        SeenView { id: self.id, value: self.value@, focused: self.focused }
    }
}

/// What a run of records holds.
pub open spec fn seen_view(s: Seq<Seen>) -> Seq<SeenView> {
    s.map_values(|x: Seen| x@)
}

/// What a watcher is to remember of a widget.
pub open spec fn seen_of(n: NodeView) -> SeenView {
    SeenView { id: n.id, value: or_empty(n.access.value), focused: n.focused }
}

/// What a watcher is to remember of a walk.
pub open spec fn seen_all(nodes: Seq<NodeView>) -> Seq<SeenView> {
    nodes.map_values(|n: NodeView| seen_of(n))
}

/// The first record of a widget.
pub open spec fn recalled(seen: Seq<SeenView>, id: WidgetId) -> Option<SeenView>
    decreases seen.len(),
{
    if seen.len() == 0 {
        None
    } else if seen[0].id == id {
        Some(seen[0])
    } else {
        recalled(seen.drop_first(), id)
    }
}

/// One thing that happened to a widget.
#[derive(Debug, Clone, PartialEq, Eq)]
pub struct Happening {
    /// The widget's path.
    pub path: String,
    /// What happened: `click`, `value` or `focus`.
    pub kind: &'static str,
    /// The new value, where there is one.
    pub value: String,
}

/// What a [`Happening`] says, as mathematical values.
pub struct HappeningView {
    /// The widget's path.
    pub path: Seq<char>,
    /// What happened.
    pub kind: Seq<char>,
    /// The new value.
    pub value: Seq<char>,
}

impl View for Happening {
    type V = HappeningView;

    open spec fn view(&self) -> HappeningView {
        HappeningView { path: self.path@, kind: self.kind@, value: self.value@ }
    }
}

/// What a run of happenings says.
pub open spec fn happenings_view(s: Seq<Happening>) -> Seq<HappeningView> {
    s.map_values(|x: Happening| x@)
}

/// One click for each activated widget that a path leads to.
pub open spec fn clicks<W: Widget>(ui: Ui<W>, ids: Seq<WidgetId>) -> Seq<HappeningView>
    decreases ids.len(),
{
    if ids.len() == 0 {
        Seq::empty()
    } else {
        let head = clicks(ui, ids.drop_last());
        match path_at(ui, ids.last()) {
            Some(path) => head.push(
                HappeningView { path, kind: "click"@, value: Seq::empty() },
            ),
            None => head,
        }
    }
}

/// What changed in one widget since it was last seen: its value first, then
/// the focus. A widget that was not seen before has not changed.
pub open spec fn changes_of<W: Widget>(ui: Ui<W>, n: NodeView, seen: Seq<SeenView>) -> Seq<
    HappeningView,
> {
    let now = seen_of(n);
    match (recalled(seen, n.id), path_at(ui, n.id)) {
        (Some(was), Some(path)) => (if was.value != now.value {
            seq![HappeningView { path, kind: "value"@, value: now.value }]
        } else {
            Seq::empty()
        }) + (if was.focused != now.focused {
            seq![HappeningView { path, kind: "focus"@, value: bool_text(now.focused) }]
        } else {
            Seq::empty()
        }),
        _ => Seq::empty(),
    }
}

/// What changed in a walk since it was last seen, in tree order.
pub open spec fn changes<W: Widget>(ui: Ui<W>, nodes: Seq<NodeView>, seen: Seq<SeenView>) -> Seq<
    HappeningView,
>
    decreases nodes.len(),
{
    if nodes.len() == 0 {
        Seq::empty()
    } else {
        changes(ui, nodes.drop_last(), seen) + changes_of(ui, nodes.last(), seen)
    }
}

/// The lines that the watcher of `watch` is told.
pub open spec fn told_lines(watch: Seq<char>, events: Seq<HappeningView>) -> Seq<char>
    decreases events.len(),
{
    if events.len() == 0 {
        Seq::empty()
    } else {
        let e = events.last();
        told_lines(watch, events.drop_last()) + if covers(watch, e.path) {
            "event "@ + escaped(e.path) + seq![' '] + e.kind + seq![' '] + escaped(e.value)
                + seq!['\n']
        } else {
            Seq::empty()
        }
    }
}

/// What a watcher is to remember of a walk.
fn remember(nodes: &Vec<Node>) -> (out: Vec<Seen>)
    ensures
        seen_view(out@) == seen_all(nodes_view(nodes@)),
{
    let mut out: Vec<Seen> = Vec::new();
    let mut i: usize = 0;
    while i < nodes.len()
        invariant
            i <= nodes.len(),
            out@.len() == i,
            forall|k: int| 0 <= k < i ==> (#[trigger] out@[k])@ == seen_of(nodes@[k]@),
        decreases nodes.len() - i,
    {
        let n = &nodes[i];
        let value = match &n.access.value {
            Some(v) => owned(v.as_str()),
            None => String::new(),
        };
        out.push(Seen { id: n.id, value, focused: n.focused });
        i += 1;
    }
    assert(seen_view(out@) =~= seen_all(nodes_view(nodes@)));
    out
}

fn recall(seen: &Vec<Seen>, id: WidgetId) -> (r: Option<usize>)
    ensures
        match r {
            Some(i) => i < seen.len() && recalled(seen_view(seen@), id) == Some(seen@[i as int]@),
            None => recalled(seen_view(seen@), id) is None,
        },
{
    let ghost all = seen_view(seen@);
    let mut i: usize = 0;
    assert(all.skip(0) =~= all);
    while i < seen.len()
        invariant
            i <= seen.len(),
            all == seen_view(seen@),
            recalled(all, id) == recalled(all.skip(i as int), id),
        decreases seen.len() - i,
    {
        assert(all.skip(i as int)[0] == seen@[i as int]@);
        assert(all.skip(i as int).drop_first() =~= all.skip(i + 1));
        if seen[i].id == id {
            return Some(i);
        }
        i += 1;
    }
    None
}

/// What happened since the tree was last seen: the activations, and then
/// the changes in tree order.
pub fn happenings<W: Widget>(
    ui: &Ui<W>,
    activated: &Vec<WidgetId>,
    nodes: &Vec<Node>,
    seen: &Vec<Seen>,
) -> (out: Vec<Happening>)
    requires
        ui.wf(),
    ensures
        happenings_view(out@) == clicks(*ui, activated@) + changes(
            *ui,
            nodes_view(nodes@),
            seen_view(seen@),
        ),
{
    let mut out: Vec<Happening> = Vec::new();
    let mut i: usize = 0;
    assert(activated@.take(0) =~= Seq::<WidgetId>::empty());
    assert(happenings_view(out@) =~= clicks(*ui, activated@.take(0)));
    while i < activated.len()
        invariant
            ui.wf(),
            i <= activated.len(),
            happenings_view(out@) == clicks(*ui, activated@.take(i as int)),
        decreases activated.len() - i,
    {
        proof {
            assert(activated@.take(i + 1).drop_last() =~= activated@.take(i as int));
            assert(activated@.take(i + 1).last() == activated@[i as int]);
        }
        let ghost before = happenings_view(out@);
        if let Some(path) = path_of(ui, activated[i]) {
            let none = String::new();
            out.push(Happening { path, kind: "click", value: none });
            assert(happenings_view(out@) =~= before.push(
                HappeningView { path: path@, kind: "click"@, value: Seq::empty() },
            ));
        }
        i += 1;
    }
    assert(activated@.take(i as int) =~= activated@);
    let ghost first = happenings_view(out@);
    let ghost all = nodes_view(nodes@);
    let ghost past = seen_view(seen@);
    let mut k: usize = 0;
    assert(all.take(0) =~= Seq::<NodeView>::empty());
    assert(happenings_view(out@) =~= first + changes(*ui, all.take(0), past));
    while k < nodes.len()
        invariant
            ui.wf(),
            k <= nodes.len(),
            all == nodes_view(nodes@),
            past == seen_view(seen@),
            happenings_view(out@) == first + changes(*ui, all.take(k as int), past),
        decreases nodes.len() - k,
    {
        let n = &nodes[k];
        let ghost before = happenings_view(out@);
        proof {
            assert(all.take(k + 1).drop_last() =~= all.take(k as int));
            assert(all.take(k + 1).last() == n@);
        }
        let ghost extra = changes_of(*ui, n@, past);
        if let Some(at) = recall(seen, n.id) {
            let value = match &n.access.value {
                Some(v) => owned(v.as_str()),
                None => String::new(),
            };
            let was = &seen[at];
            let moved = !text_eq(was.value.as_str(), value.as_str());
            let turned = was.focused != n.focused;
            if moved || turned {
                if let Some(path) = path_of(ui, n.id) {
                    if moved {
                        out.push(
                            Happening { path: owned(path.as_str()), kind: "value", value },
                        );
                    }
                    let ghost mid = happenings_view(out@);
                    if turned {
                        let word = if n.focused {
                            "true".to_owned()
                        } else {
                            "false".to_owned()
                        };
                        out.push(Happening { path, kind: "focus", value: word });
                    }
                    proof {
                        let a = if moved {
                            seq![
                                HappeningView {
                                    path: path@,
                                    kind: "value"@,
                                    value: seen_of(n@).value,
                                },
                            ]
                        } else {
                            Seq::empty()
                        };
                        assert(mid =~= before + a);
                        assert(happenings_view(out@) =~= before + extra);
                    }
                }
            } else {
                assert(extra =~= Seq::<HappeningView>::empty());
            }
        }
        assert(happenings_view(out@) =~= before + extra);
        assert(happenings_view(out@) =~= first + changes(*ui, all.take(k + 1), past));
        k += 1;
    }
    assert(all.take(k as int) =~= all);
    out
}

fn lines_for(watch: &str, events: &Vec<Happening>) -> (out: String)
    ensures
        out@ == told_lines(watch@, happenings_view(events@)),
{
    let mut out = String::new();
    let ghost all = happenings_view(events@);
    let mut i: usize = 0;
    assert(all.take(0) =~= Seq::<HappeningView>::empty());
    while i < events.len()
        invariant
            i <= events.len(),
            all == happenings_view(events@),
            out@ == told_lines(watch@, all.take(i as int)),
        decreases events.len() - i,
    {
        let e = &events[i];
        let ghost before = out@;
        proof {
            assert(all.take(i + 1).drop_last() =~= all.take(i as int));
            assert(all.take(i + 1).last() == e@);
        }
        if watch_matches(watch, e.path.as_str()) {
            out.append("event ");
            let path = escape(e.path.as_str());
            out.append(path.as_str());
            out.push(' ');
            out.append(e.kind);
            out.push(' ');
            let value = escape(e.value.as_str());
            out.append(value.as_str());
            out.push('\n');
        }
        assert(out@ =~= told_lines(watch@, all.take(i + 1)));
        i += 1;
    }
    assert(all.take(i as int) =~= all);
    out
}

// ---------------------------------------------------------------------
// all clients
// ---------------------------------------------------------------------

/// Every connected client, and what the watchers among them last saw.
pub struct Clients<T> {
    /// The clients, oldest first.
    pub list: Vec<Client<T>>,
    /// What the watchers last saw.
    pub snapshot: Vec<Seen>,
}

/// What the clients hold, as mathematical values.
pub open spec fn clients_view<T>(s: Seq<Client<T>>) -> Seq<ClientView<T>> {
    s.map_values(|c: Client<T>| c@)
}

/// Whether anything is watched.
pub open spec fn watched<T>(s: Seq<ClientView<T>>) -> bool {
    exists|i: int| 0 <= i < s.len() && (#[trigger] s[i]).watching is Some
}

/// A client after it was told of `events`.
pub open spec fn informed<T>(c: ClientView<T>, events: Seq<HappeningView>) -> ClientView<T> {
    match c.watching {
        Some(watch) => ClientView {
            output: c.output + bytes_of(told_lines(watch, events)),
            ..c
        },
        None => c,
    }
}

/// The clients that are not done with.
pub open spec fn remaining<T>(s: Seq<ClientView<T>>) -> Seq<ClientView<T>>
    decreases s.len(),
{
    if s.len() == 0 {
        Seq::empty()
    } else if s.last().done {
        remaining(s.drop_last())
    } else {
        remaining(s.drop_last()).push(s.last())
    }
}

impl<T> Clients<T> {
    /// What the watchers last saw.
    pub open spec fn seen(&self) -> Seq<SeenView> {
        seen_view(self.snapshot@)
    }

    /// Each client is well-formed.
    pub open spec fn wf(&self) -> bool {
        forall|i: int| 0 <= i < self.list@.len() ==> (#[trigger] self.list@[i]).wf()
    }

    /// No clients.
    pub fn new() -> (c: Clients<T>)
        ensures
            c.wf(),
            c.list@.len() == 0,
            c.seen() == Seq::<SeenView>::empty(),
    {
        let c = Clients { list: Vec::new(), snapshot: Vec::new() };
        assert(c.seen() =~= Seq::<SeenView>::empty());
        c
    }

    /// Whether anything is connected, so the loop knows to poll them.
    pub fn busy(&self) -> (r: bool)
        ensures
            r == (self.list@.len() > 0),
    {
        self.list.len() > 0
    }

    /// How many clients are connected.
    pub fn client_count(&self) -> (n: usize)
        ensures
            n == self.list@.len(),
    {
        self.list.len()
    }

    /// Take a connection in.
    pub fn welcome(&mut self, stream: T)
        requires
            old(self).wf(),
        ensures
            final(self).wf(),
            final(self).seen() == old(self).seen(),
            clients_view(final(self).list@) == clients_view(old(self).list@).push(
                ClientView {
                    stream,
                    input: Seq::empty(),
                    output: Seq::empty(),
                    written: 0,
                    watching: None,
                    done: false,
                },
            ),
    {
        let ghost before = self.list@;
        self.list.push(Client::new(stream));
        assert(clients_view(self.list@) =~= clients_view(before).push(self.list@.last()@));
    }

    fn any_watching(&self) -> (r: bool)
        ensures
            r == watched(clients_view(self.list@)),
    {
        let ghost all = clients_view(self.list@);
        let mut i: usize = 0;
        while i < self.list.len()
            invariant
                i <= self.list.len(),
                all == clients_view(self.list@),
                forall|k: int| 0 <= k < i ==> (#[trigger] all[k]).watching is None,
            decreases self.list.len() - i,
        {
            if self.list[i].is_watching() {
                assert(all[i as int].watching is Some);
                return true;
            }
            assert(all[i as int].watching is None);
            i += 1;
        }
        false
    }

    /// Remember the tree as it is, for the watchers.
    pub fn take_snapshot<W: Widget>(&mut self, ui: &Ui<W>)
        requires
            ui.wf(),
            old(self).wf(),
        ensures
            final(self).wf(),
            final(self).list == old(self).list,
            final(self).seen() == seen_all(ui.walk(ui.met())),
    {
        let nodes = ui.introspect();
        self.snapshot = remember(&nodes);
    }

    /// Walk the tree and hand every watcher the changes since last time.
    ///
    /// The activations are drained whether or not anything is watched, so
    /// that an unwatched app cannot accumulate them.
    pub fn emit_events<W: Widget>(&mut self, ui: &mut Ui<W>)
        requires
            old(self).wf(),
            old(ui).wf(),
        ensures
            final(self).wf(),
            final(ui).wf(),
            final(ui).rank() == old(ui).rank(),
            final(ui).top() == old(ui).top(),
            final(ui)@ == (UiView { activations: Seq::empty(), ..old(ui)@ }),
            final(ui).space_left() == old(ui).space_left(),
            final(ui).still_retired(old(ui)),
            ({
                let before = clients_view(old(self).list@);
                let after = clients_view(final(self).list@);
                let nodes = final(ui).walk(final(ui).met());
                let events = clicks(*final(ui), old(ui)@.activations) + changes(
                    *final(ui),
                    nodes,
                    old(self).seen(),
                );
                if watched(before) {
                    &&& final(self).seen() == seen_all(nodes)
                    &&& after == before.map_values(|c: ClientView<T>| informed(c, events))
                } else {
                    &&& final(self).seen() == old(self).seen()
                    &&& after == before
                }
            }),
    {
        let activated = ui.take_activations();
        if !self.any_watching() {
            return;
        }
        let nodes = ui.introspect();
        let events = happenings(ui, &activated, &nodes, &self.snapshot);
        self.snapshot = remember(&nodes);
        let ghost before = clients_view(self.list@);
        let ghost said = happenings_view(events@);
        let n: usize = self.list.len();
        let mut i: usize = 0;
        while i < n
            invariant
                i <= n,
                n == self.list@.len(),
                n == before.len(),
                self.wf(),
                said == happenings_view(events@),
                self.seen() == seen_all(nodes_view(nodes@)),
                forall|k: int| 0 <= k < i ==> (#[trigger] self.list@[k])@ == informed(before[k], said),
                forall|k: int| i <= k < n ==> (#[trigger] self.list@[k])@ == before[k],
            decreases n - i,
        {
            let watch = copy_text(&self.list[i].watching);
            if let Some(w) = watch {
                let text = lines_for(w.as_str(), &events);
                self.list[i].send(text.as_str().as_bytes());
            }
            i += 1;
        }
        assert(clients_view(self.list@) =~= before.map_values(
            |c: ClientView<T>| informed(c, said),
        ));
    }

    /// Let go of the clients that are done with, and of what was last seen
    /// once nothing is watched.
    pub fn settle(&mut self)
        requires
            old(self).wf(),
        ensures
            final(self).wf(),
            clients_view(final(self).list@) == remaining(clients_view(old(self).list@)),
            final(self).seen() == (if watched(clients_view(final(self).list@)) {
                old(self).seen()
            } else {
                Seq::empty()
            }),
    {
        let ghost all = clients_view(self.list@);
        let ghost start = self.list@;
        let n: usize = self.list.len();
        let mut queue: Vec<Client<T>> = Vec::new();
        std::mem::swap(&mut queue, &mut self.list);
        let mut kept: Vec<Client<T>> = Vec::new();
        let mut i: usize = 0;
        assert(all.take(0) =~= Seq::<ClientView<T>>::empty());
        assert(clients_view(kept@) =~= remaining(all.take(0)));
        while queue.len() > 0
            invariant
                i + queue@.len() == n,
                n == start.len(),
                all == clients_view(start),
                queue@ == start.skip(i as int),
                forall|k: int| 0 <= k < start.len() ==> (#[trigger] start[k]).wf(),
                forall|k: int| 0 <= k < kept@.len() ==> (#[trigger] kept@[k]).wf(),
                clients_view(kept@) == remaining(all.take(i as int)),
                self.snapshot == old(self).snapshot,
            decreases queue.len(),
        {
            let c = queue.remove(0);
            let ghost before = clients_view(kept@);
            proof {
                assert(c == start[i as int]);
                assert(queue@ =~= start.skip(i + 1));
                assert(all.take(i + 1).drop_last() =~= all.take(i as int));
                assert(all.take(i + 1).last() == c@);
            }
            if !c.is_done() {
                kept.push(c);
                assert(clients_view(kept@) =~= before.push(c@));
            }
            i += 1;
        }
        assert(all.take(i as int) =~= all);
        self.list = kept;
        if !self.any_watching() {
            self.snapshot = Vec::new();
            assert(self.seen() =~= Seq::<SeenView>::empty());
        }
    }
}

/// A client that watches is told of every change it watches, after all it was
/// told before; one that does not is told nothing.
pub proof fn news_come_after_what_was_said<T>(c: ClientView<T>, events: Seq<HappeningView>)
    ensures
        c.watching is None ==> informed(c, events) == c,
        c.watching is Some ==> {
            let now = informed(c, events);
            &&& c.output.is_prefix_of(now.output)
            &&& now.output.skip(c.output.len() as int) == encode_utf8(
                told_lines(c.watching->0, events),
            )
            &&& now == (ClientView { output: now.output, ..c })
        },
{
    if c.watching is Some {
        let now = informed(c, events);
        assert(now.output.skip(c.output.len() as int) =~= encode_utf8(
            told_lines(c.watching->0, events),
        ));
    }
}

} // verus!
