//! Request lines: how they are cut from a stream, taken apart and answered
//! in form.

use vstd::prelude::*;
use vstd::utf8::*;

use crate::chars::{
    chars_of, is_space, same, slice_of, string_of, trim, trim_end, trim_start, trimmed,
    trimmed_start,
};
use crate::introspect::path::ROOT;
use crate::introspect::text::{
    chars_view, escaped, escaped_fields_hold_no_breaks, escaping_round_trips, joined, unescape,
    unescaped, word_len, words, words_of,
};

verus! {

// ---------------------------------------------------------------------
// lines
// ---------------------------------------------------------------------

/// What bytes say where whatever is not UTF-8 in them is replaced.
pub uninterp spec fn lossy_text(bytes: Seq<u8>) -> Seq<char>;

/// Calls `String::from_utf8_lossy`. Bytes that are UTF-8 are decoded as they
/// stand; of others only this is claimed: the text depends on the bytes
/// alone.
#[verifier::external_body]
pub(crate) fn decode_lossy(bytes: &[u8]) -> (s: String)
    ensures
        s@ == lossy_text(bytes@),
        valid_utf8(bytes@) ==> s@ == decode_utf8(bytes@),
{
    String::from_utf8_lossy(bytes).into_owned()
}

/// The byte that ends a line.
pub const NEWLINE: u8 = 10;

/// Where the first line of `buf` ends, or how long `buf` is.
pub open spec fn line_len(buf: Seq<u8>) -> nat
    decreases buf.len(),
{
    if buf.len() == 0 || buf[0] == NEWLINE {
        0
    } else {
        1 + line_len(buf.drop_first())
    }
}

/// The index of the first line break in `buf`, or its length.
fn line_end(buf: &Vec<u8>) -> (i: usize)
    ensures
        i == line_len(buf@),
        i <= buf.len(),
        i < buf.len() ==> buf@[i as int] == NEWLINE,
{
    let mut i: usize = 0;
    assert(buf@.skip(0) =~= buf@);
    while i < buf.len() && buf[i] != NEWLINE
        invariant
            i <= buf.len(),
            line_len(buf@) == i + line_len(buf@.skip(i as int)),
        decreases buf.len() - i,
    {
        assert(buf@.skip(i as int).drop_first() =~= buf@.skip(i + 1));
        i += 1;
    }
    i
}

/// Whether `buf` holds a complete line.
pub fn has_line(buf: &Vec<u8>) -> (r: bool)
    ensures
        r == (line_len(buf@) < buf.len()),
        line_len(buf@) <= buf.len(),
{
    line_end(buf) < buf.len()
}

/// Split the first complete line off `buf`; the line break goes with it.
pub fn take_line(buf: &mut Vec<u8>) -> (line: Option<String>)
    ensures
        match line {
            Some(s) => {
                let n = line_len(old(buf)@) as int;
                &&& n < old(buf)@.len()
                &&& s@ == lossy_text(old(buf)@.take(n))
                &&& valid_utf8(old(buf)@.take(n)) ==> s@ == decode_utf8(old(buf)@.take(n))
                &&& final(buf)@ == old(buf)@.skip(n + 1)
            },
            None => line_len(old(buf)@) == old(buf)@.len() && final(buf)@ == old(buf)@,
        },
{
    let n: usize = line_end(buf);
    if n == buf.len() {
        return None;
    }
    let ghost all = buf@;
    let mut rest = buf.split_off(n + 1);
    std::mem::swap(&mut rest, buf);
    let _end = rest.pop();
    proof {
        assert(rest@ =~= all.take(n as int));
        assert(buf@ =~= all.skip(n + 1));
    }
    Some(decode_lossy(rest.as_slice()))
}

/// Cutting a line off a stream loses nothing: the line, a line break and
/// the rest are the stream.
pub proof fn lines_lose_nothing(buf: Seq<u8>)
    requires
        line_len(buf) < buf.len(),
    ensures
        buf.take(line_len(buf) as int).push(NEWLINE) + buf.skip(line_len(buf) as int + 1) == buf,
        !buf.take(line_len(buf) as int).contains(NEWLINE),
    decreases buf.len(),
{
    let n = line_len(buf) as int;
    lemma_line_len(buf);
    assert(buf.take(n).push(NEWLINE) + buf.skip(n + 1) =~= buf);
}

proof fn lemma_line_len(buf: Seq<u8>)
    ensures
        line_len(buf) <= buf.len(),
        line_len(buf) < buf.len() ==> buf[line_len(buf) as int] == NEWLINE,
        forall|i: int| 0 <= i < line_len(buf) ==> buf[i] != NEWLINE,
    decreases buf.len(),
{
    if buf.len() > 0 && buf[0] != NEWLINE {
        let t = buf.drop_first();
        lemma_line_len(t);
        assert forall|i: int| 0 <= i < line_len(buf) implies buf[i] != NEWLINE by {
            if i > 0 {
                assert(buf[i] == t[i - 1]);
            }
        }
    }
}

// ---------------------------------------------------------------------
// requests
// ---------------------------------------------------------------------

/// One request, taken apart.
#[derive(Debug, Clone, PartialEq, Eq)]
pub enum Request {
    /// List the widgets under a path, indented or not.
    List {
        /// Where to start.
        path: String,
        /// Whether each level is indented.
        indent: bool,
    },
    /// Read every property of a widget, or one.
    Get {
        /// The widget.
        path: String,
        /// The one property, if only one was asked for.
        only: Option<String>,
    },
    /// Change a property.
    Put {
        /// The widget.
        path: String,
        /// The property.
        prop: String,
        /// Its new value.
        value: String,
    },
    /// Invoke an action.
    Do {
        /// The widget.
        path: String,
        /// The action.
        action: String,
        /// Its argument, if it has one.
        arg: Option<String>,
    },
    /// Report changes from now on.
    Watch {
        /// Where.
        path: String,
    },
    /// Take a screenshot of the window.
    Shot,
    /// Stop the app.
    Quit,
    /// The line is no request, for this reason.
    Bad(String),
}

/// What a [`Request`] asks, as mathematical values.
pub enum RequestView {
    /// List the widgets under a path, indented or not.
    List {
        /// Where to start.
        path: Seq<char>,
        /// Whether each level is indented.
        indent: bool,
    },
    /// Read every property of a widget, or one.
    Get {
        /// The widget.
        path: Seq<char>,
        /// The one property.
        only: Option<Seq<char>>,
    },
    /// Change a property.
    Put {
        /// The widget.
        path: Seq<char>,
        /// The property.
        prop: Seq<char>,
        /// Its new value.
        value: Seq<char>,
    },
    /// Invoke an action.
    Do {
        /// The widget.
        path: Seq<char>,
        /// The action.
        action: Seq<char>,
        /// Its argument.
        arg: Option<Seq<char>>,
    },
    /// Report changes from now on.
    Watch {
        /// Where.
        path: Seq<char>,
    },
    /// Take a screenshot of the window.
    Shot,
    /// Stop the app.
    Quit,
    /// The line is no request, for this reason.
    Bad(Seq<char>),
}

impl View for Request {
    type V = RequestView;

    open spec fn view(&self) -> RequestView {
        match *self {
            Request::List { path, indent } => RequestView::List { path: path@, indent },
            Request::Get { path, only } => RequestView::Get {
                path: path@,
                only: crate::arena::text_view(only),
            },
            Request::Put { path, prop, value } => RequestView::Put {
                path: path@,
                prop: prop@,
                value: value@,
            },
            Request::Do { path, action, arg } => RequestView::Do {
                path: path@,
                action: action@,
                arg: crate::arena::text_view(arg),
            },
            Request::Watch { path } => RequestView::Watch { path: path@ },
            Request::Shot => RequestView::Shot,
            Request::Quit => RequestView::Quit,
            Request::Bad(why) => RequestView::Bad(why@),
        }
    }
}

/// A line without the line breaks at its end.
pub open spec fn chomped(s: Seq<char>) -> Seq<char>
    decreases s.len(),
{
    if s.len() > 0 && (s.last() == '\r' || s.last() == '\n') {
        chomped(s.drop_last())
    } else {
        s
    }
}

/// `s` without the word `w` at its start; `s` itself where it starts
/// otherwise.
pub open spec fn without_word(s: Seq<char>, w: Seq<char>) -> Seq<char> {
    if w.len() <= s.len() && s.take(w.len() as int) == w {
        s.skip(w.len() as int)
    } else {
        s
    }
}

/// `s` without each of `ws` in turn, and the white space before it.
pub open spec fn without_words(s: Seq<char>, ws: Seq<Seq<char>>) -> Seq<char>
    decreases ws.len(),
{
    if ws.len() == 0 {
        s
    } else {
        without_words(without_word(trim_start(s), ws[0]), ws.drop_first())
    }
}

/// Everything in `line` after the given leading words, trimmed.
pub open spec fn after_words(line: Seq<char>, ws: Seq<Seq<char>>) -> Seq<char> {
    trim(without_words(trim_start(line), ws))
}

/// The request that a line makes.
pub open spec fn request_of(text: Seq<char>) -> RequestView {
    let line = chomped(text);
    let ws = words(line);
    if ws.len() == 0 {
        RequestView::Bad("empty request"@)
    } else if ws[0] == "list"@ || ws[0] == "tree"@ {
        RequestView::List {
            path: if ws.len() > 1 {
                ws[1]
            } else {
                ROOT@
            },
            indent: ws[0] == "tree"@,
        }
    } else if ws[0] == "get"@ {
        if ws.len() < 2 {
            RequestView::Bad("get needs a path"@)
        } else {
            RequestView::Get {
                path: ws[1],
                only: if ws.len() > 2 {
                    Some(ws[2])
                } else {
                    None
                },
            }
        }
    } else if ws[0] == "set"@ {
        if ws.len() < 3 {
            RequestView::Bad("set needs a path, a property and a value"@)
        } else {
            RequestView::Put {
                path: ws[1],
                prop: ws[2],
                value: unescaped(after_words(line, ws.take(3))),
            }
        }
    } else if ws[0] == "do"@ {
        if ws.len() < 3 {
            RequestView::Bad(
                "do needs a path and an action, e.g. `do window/container[1]/7 click`"@,
            )
        } else {
            let arg = unescaped(after_words(line, ws.take(3)));
            RequestView::Do {
                path: ws[1],
                action: ws[2],
                arg: if arg.len() == 0 {
                    None
                } else {
                    Some(arg)
                },
            }
        }
    } else if ws[0] == "watch"@ {
        RequestView::Watch {
            path: if ws.len() > 1 {
                ws[1]
            } else {
                "*"@
            },
        }
    } else if ws[0] == "shot"@ {
        RequestView::Shot
    } else if ws[0] == "quit"@ {
        RequestView::Quit
    } else {
        RequestView::Bad("unknown request `"@ + ws[0] + "`"@)
    }
}

/// Everything in `line` after the given leading words, trimmed.
///
/// Each word is stripped in turn rather than the line being split, so the
/// value keeps its internal spacing. Leading and trailing white space is
/// trimmed: the protocol has no way to quote it.
pub fn rest_after(line: &str, ws: &[&str]) -> (out: String)
    ensures
        out@ == after_words(line@, ws@.map_values(|s: &str| s@)),
{
    let mut list: Vec<Vec<char>> = Vec::new();
    let mut i: usize = 0;
    while i < ws.len()
        invariant
            i <= ws.len(),
            list@.len() == i,
            forall|k: int| 0 <= k < i ==> (#[trigger] list@[k])@ == ws@[k]@,
        decreases ws.len() - i,
    {
        list.push(chars_of(ws[i]));
        i += 1;
    }
    assert(chars_view(list@) =~= ws@.map_values(|s: &str| s@));
    let chars = chars_of(line);
    let out = rest_of(chars.as_slice(), list.as_slice());
    string_of(out.as_slice())
}

fn rest_of(line: &[char], ws: &[Vec<char>]) -> (out: Vec<char>)
    ensures
        out@ == after_words(line@, chars_view(ws@)),
{
    let mut rest = trimmed_start(line);
    let ghost all = chars_view(ws@);
    let ghost want = without_words(rest@, all);
    let mut i: usize = 0;
    assert(all.skip(0) =~= all);
    while i < ws.len()
        invariant
            i <= ws.len(),
            all == chars_view(ws@),
            without_words(rest@, all.skip(i as int)) == want,
        decreases ws.len() - i,
    {
        proof {
            assert(all.skip(i as int)[0] == ws@[i as int]@);
            assert(all.skip(i as int).drop_first() =~= all.skip(i + 1));
        }
        let lead = trimmed_start(rest.as_slice());
        let w = &ws[i];
        let n: usize = w.len();
        if n <= lead.len() {
            let head = slice_of(lead.as_slice(), 0, n);
            assert(head@ =~= lead@.take(n as int));
            if same(head.as_slice(), w.as_slice()) {
                assert(lead@.subrange(n as int, lead@.len() as int) =~= lead@.skip(n as int));
                rest = slice_of(lead.as_slice(), n, lead.len());
            } else {
                rest = lead;
            }
        } else {
            rest = lead;
        }
        i += 1;
    }
    assert(all.skip(i as int) =~= Seq::<Seq<char>>::empty());
    trimmed(rest.as_slice())
}

fn chomp(v: &[char]) -> (out: Vec<char>)
    ensures
        out@ == chomped(v@),
{
    let mut n: usize = v.len();
    assert(v@.take(n as int) =~= v@);
    while n > 0 && (v[n - 1] == '\r' || v[n - 1] == '\n')
        invariant
            n <= v.len(),
            chomped(v@) == chomped(v@.take(n as int)),
        decreases n,
    {
        assert(v@.take(n as int).last() == v@[n - 1]);
        assert(v@.take(n as int).drop_last() =~= v@.take(n - 1));
        n -= 1;
    }
    proof {
        if n > 0 {
            assert(v@.take(n as int).last() == v@[n - 1]);
        }
        assert(v@.take(n as int) =~= v@.subrange(0, n as int));
    }
    slice_of(v, 0, n)
}

fn is_word(w: &[char], text: &str) -> (r: bool)
    ensures
        r == (w@ == text@),
{
    let t = chars_of(text);
    same(w, t.as_slice())
}

/// Everything after the first three words of `line`, unescaped.
fn value_of_line(line: &[char], ws: &Vec<Vec<char>>) -> (out: String)
    requires
        ws.len() >= 3,
    ensures
        out@ == unescaped(after_words(line@, chars_view(ws@).take(3))),
{
    let mut lead: Vec<Vec<char>> = Vec::new();
    lead.push(slice_of(ws[0].as_slice(), 0, ws[0].len()));
    lead.push(slice_of(ws[1].as_slice(), 0, ws[1].len()));
    lead.push(slice_of(ws[2].as_slice(), 0, ws[2].len()));
    proof {
        assert(ws@[0]@.subrange(0, ws@[0]@.len() as int) =~= ws@[0]@);
        assert(ws@[1]@.subrange(0, ws@[1]@.len() as int) =~= ws@[1]@);
        assert(ws@[2]@.subrange(0, ws@[2]@.len() as int) =~= ws@[2]@);
        assert(chars_view(lead@) =~= chars_view(ws@).take(3));
    }
    let rest = rest_of(line, lead.as_slice());
    let text = string_of(rest.as_slice());
    unescape(text.as_str())
}

/// Take a request line apart.
pub fn parse_request(text: &str) -> (r: Request)
    ensures
        r@ == request_of(text@),
{
    let chars = chars_of(text);
    let line = chomp(chars.as_slice());
    let ws = words_of(line.as_slice());
    let ghost all = chars_view(ws@);
    if ws.len() == 0 {
        return Request::Bad("empty request".to_owned());
    }
    proof {
        assert(all[0] == ws@[0]@);
        if ws@.len() > 1 {
            assert(all[1] == ws@[1]@);
        }
        if ws@.len() > 2 {
            assert(all[2] == ws@[2]@);
        }
    }
    let cmd = ws[0].as_slice();
    let tree = is_word(cmd, "tree");
    if tree || is_word(cmd, "list") {
        let path = if ws.len() > 1 {
            string_of(ws[1].as_slice())
        } else {
            ROOT.to_owned()
        };
        return Request::List { path, indent: tree };
    }
    if is_word(cmd, "get") {
        if ws.len() < 2 {
            return Request::Bad("get needs a path".to_owned());
        }
        let only = if ws.len() > 2 {
            Some(string_of(ws[2].as_slice()))
        } else {
            None
        };
        return Request::Get { path: string_of(ws[1].as_slice()), only };
    }
    if is_word(cmd, "set") {
        if ws.len() < 3 {
            return Request::Bad("set needs a path, a property and a value".to_owned());
        }
        let value = value_of_line(line.as_slice(), &ws);
        return Request::Put {
            path: string_of(ws[1].as_slice()),
            prop: string_of(ws[2].as_slice()),
            value,
        };
    }
    if is_word(cmd, "do") {
        if ws.len() < 3 {
            return Request::Bad(
                "do needs a path and an action, e.g. `do window/container[1]/7 click`".to_owned(),
            );
        }
        let value = value_of_line(line.as_slice(), &ws);
        let held = chars_of(value.as_str());
        let arg = if held.len() == 0 {
            None
        } else {
            Some(value)
        };
        return Request::Do {
            path: string_of(ws[1].as_slice()),
            action: string_of(ws[2].as_slice()),
            arg,
        };
    }
    if is_word(cmd, "watch") {
        let path = if ws.len() > 1 {
            string_of(ws[1].as_slice())
        } else {
            "*".to_owned()
        };
        return Request::Watch { path };
    }
    if is_word(cmd, "shot") {
        return Request::Shot;
    }
    if is_word(cmd, "quit") {
        return Request::Quit;
    }
    let mut why = "unknown request `".to_owned();
    let name = string_of(cmd);
    why.append(name.as_str());
    why.append("`");
    Request::Bad(why)
}

/// Whether `s` is one word: something, and no white space in it.
pub open spec fn one_word(s: Seq<char>) -> bool {
    &&& s.len() > 0
    &&& forall|i: int| 0 <= i < s.len() ==> !is_space(#[trigger] s[i])
}

proof fn lemma_word_len_of(w: Seq<char>, rest: Seq<char>)
    requires
        forall|i: int| 0 <= i < w.len() ==> !is_space(#[trigger] w[i]),
        rest.len() > 0 ==> is_space(rest[0]),
    ensures
        word_len(w + rest) == w.len(),
    decreases w.len(),
{
    let all = w + rest;
    if w.len() == 0 {
        assert(all =~= rest);
    } else {
        let tail = w.drop_first();
        assert(all.drop_first() =~= tail + rest);
        assert forall|i: int| 0 <= i < tail.len() implies !is_space(#[trigger] tail[i]) by {
            assert(tail[i] == w[i + 1]);
        }
        lemma_word_len_of(tail, rest);
        assert(!is_space(w[0]));
        assert(all[0] == w[0]);
    }
}

/// A word and a space in front of `rest` add that word.
proof fn lemma_one_more_word(w: Seq<char>, rest: Seq<char>)
    requires
        one_word(w),
    ensures
        words(w + seq![' '] + rest) == seq![w] + words(rest),
        trim_start(w + seq![' '] + rest) == w + seq![' '] + rest,
        without_word(w + seq![' '] + rest, w) == seq![' '] + rest,
        trim_start(seq![' '] + rest) == trim_start(rest),
{
    let gap = seq![' '] + rest;
    let all = w + seq![' '] + rest;
    assert(all =~= w + gap);
    lemma_word_len_of(w, gap);
    assert(!is_space(w[0]));
    assert(all[0] == w[0]);
    assert(all.take(w.len() as int) =~= w);
    assert(all.skip(w.len() as int) =~= gap);
    assert(gap.drop_first() =~= rest);
    assert(words(gap) == words(rest));
}

/// Whether the white space around `s` is none.
pub open spec fn tight(s: Seq<char>) -> bool {
    s.len() > 0 ==> !is_space(s[0]) && !is_space(s.last())
}

/// A request to set a property carries the value through the line whole,
/// however many spaces, tabs and line breaks are in it. Only white space
/// around the escaped value cannot be said.
pub proof fn a_value_arrives_whole(path: Seq<char>, prop: Seq<char>, value: Seq<char>)
    requires
        one_word(path),
        one_word(prop),
        tight(escaped(value)),
    ensures
        request_of("set "@ + path + seq![' '] + prop + seq![' '] + escaped(value)) == (
        RequestView::Put { path, prop, value }),
{
    reveal_strlit("set ");
    reveal_strlit("set");
    reveal_strlit("list");
    reveal_strlit("tree");
    reveal_strlit("get");
    let set = "set"@;
    let body = escaped(value);
    assert("set "@ + path + seq![' '] + prop + seq![' '] + body =~= line_of(set, path, prop, body));
    assert(one_word(set)) by {
        assert(set =~= seq!['s', 'e', 't']);
    }
    lemma_line_of(set, path, prop, value);
    assert("list"@.len() == 4 && "tree"@.len() == 4);
    assert("get"@[0] == 'g');
}

/// Three words and what is behind them, with a space between each.
pub open spec fn line_of(
    cmd: Seq<char>,
    path: Seq<char>,
    word: Seq<char>,
    body: Seq<char>,
) -> Seq<char> {
    cmd + seq![' '] + path + seq![' '] + word + seq![' '] + body
}

/// What is behind the third word is read back as it was escaped.
proof fn lemma_line_of(cmd: Seq<char>, path: Seq<char>, word: Seq<char>, value: Seq<char>)
    requires
        one_word(cmd),
        one_word(path),
        one_word(word),
        tight(escaped(value)),
    ensures
        ({
            let line = line_of(cmd, path, word, escaped(value));
            let ws = words(chomped(line));
            &&& chomped(line) == line
            &&& ws.len() >= 3 && ws[0] == cmd && ws[1] == path && ws[2] == word
            &&& unescaped(after_words(line, ws.take(3))) == value
        }),
{
    let body = escaped(value);
    let third = word + seq![' '] + body;
    let second = path + seq![' '] + third;
    let line = cmd + seq![' '] + second;
    assert(line_of(cmd, path, word, body) =~= line);
    escaped_fields_hold_no_breaks(value);
    assert(line.last() == (if body.len() > 0 {
        body.last()
    } else {
        ' '
    }));
    assert(body.len() > 0 ==> body.last() == body[body.len() - 1]);
    assert(chomped(line) == line);
    lemma_one_more_word(cmd, second);
    lemma_one_more_word(path, third);
    lemma_one_more_word(word, body);
    let ws = words(line);
    assert(ws =~= seq![cmd, path, word] + words(body));
    let lead = ws.take(3);
    assert(lead =~= seq![cmd, path, word]);
    assert(without_words(line, lead) == seq![' '] + body) by {
        let l1 = lead.drop_first();
        let l2 = l1.drop_first();
        assert(l1 =~= seq![path, word]);
        assert(l2 =~= seq![word]);
        assert(l2.drop_first() =~= Seq::<Seq<char>>::empty());
        assert(without_words(seq![' '] + body, l2.drop_first()) == seq![' '] + body);
        assert(without_words(seq![' '] + third, l2) == seq![' '] + body);
        assert(without_words(seq![' '] + second, l1) == seq![' '] + body);
    }
    assert(trim_start(body) == body);
    assert(trim_end(body) == body);
    assert(after_words(line, lead) == body);
    escaping_round_trips(value);
}

/// A request to invoke an action carries its argument through the line whole,
/// as one to set a property does its value; an empty one is none.
pub proof fn an_argument_arrives_whole(path: Seq<char>, action: Seq<char>, arg: Seq<char>)
    requires
        one_word(path),
        one_word(action),
        tight(escaped(arg)),
    ensures
        request_of("do "@ + path + seq![' '] + action + seq![' '] + escaped(arg)) == (
        RequestView::Do {
            path,
            action,
            arg: if arg.len() == 0 {
                None
            } else {
                Some(arg)
            },
        }),
{
    reveal_strlit("do ");
    reveal_strlit("do");
    reveal_strlit("set");
    reveal_strlit("list");
    reveal_strlit("tree");
    reveal_strlit("get");
    let cmd = "do"@;
    let body = escaped(arg);
    assert("do "@ + path + seq![' '] + action + seq![' '] + body =~= line_of(
        cmd,
        path,
        action,
        body,
    ));
    assert(one_word(cmd)) by {
        assert(cmd =~= seq!['d', 'o']);
    }
    lemma_line_of(cmd, path, action, arg);
    assert("list"@.len() == 4 && "tree"@.len() == 4 && "get"@.len() == 3 && "set"@.len() == 3);
}

proof fn lemma_single_word(w: Seq<char>)
    requires
        one_word(w),
    ensures
        words(w) == seq![w],
        chomped(w) == w,
{
    lemma_word_len_of(w, Seq::empty());
    assert(w + Seq::<char>::empty() =~= w);
    assert(!is_space(w[0]));
    assert(w.take(w.len() as int) =~= w);
    assert(w.skip(w.len() as int) =~= Seq::<char>::empty());
    assert(words(Seq::<char>::empty()) =~= Seq::<Seq<char>>::empty());
    assert(words(w) =~= seq![w]);
    assert(!is_space(w[w.len() - 1]));
}

/// Words with a space between each are taken apart into those words, and
/// nothing at the end of the line is lost.
pub proof fn words_are_taken_apart(ws: Seq<Seq<char>>)
    requires
        ws.len() > 0,
        forall|i: int| 0 <= i < ws.len() ==> one_word(#[trigger] ws[i]),
    ensures
        words(joined(ws, ' ')) == ws,
        chomped(joined(ws, ' ')) == joined(ws, ' '),
        joined(ws, ' ').len() > 0,
        !is_space(joined(ws, ' ').last()),
    decreases ws.len(),
{
    let w = ws[0];
    assert(one_word(ws[0]));
    if ws.len() == 1 {
        lemma_single_word(w);
        assert(ws =~= seq![w]);
        assert(!is_space(w[w.len() - 1]));
    } else {
        let rest = ws.drop_first();
        assert forall|i: int| 0 <= i < rest.len() implies one_word(#[trigger] rest[i]) by {
            assert(rest[i] == ws[i + 1]);
        }
        words_are_taken_apart(rest);
        lemma_one_more_word(w, joined(rest, ' '));
        assert(seq![w] + rest =~= ws);
        let line = joined(ws, ' ');
        assert(line.last() == joined(rest, ' ').last());
    }
}

proof fn lemma_commands()
    ensures
        one_word("list"@),
        one_word("tree"@),
        one_word("get"@),
        one_word("set"@),
        one_word("do"@),
        one_word("watch"@),
        one_word("shot"@),
        one_word("quit"@),
        "list"@ != "tree"@,
        "get"@ != "list"@ && "get"@ != "tree"@,
        "do"@ != "list"@ && "do"@ != "tree"@ && "do"@ != "get"@ && "do"@ != "set"@,
        "watch"@ != "list"@ && "watch"@ != "tree"@ && "watch"@ != "get"@ && "watch"@ != "set"@
            && "watch"@ != "do"@,
        "shot"@ != "list"@ && "shot"@ != "tree"@ && "shot"@ != "get"@ && "shot"@ != "set"@
            && "shot"@ != "do"@ && "shot"@ != "watch"@,
        "quit"@ != "list"@ && "quit"@ != "tree"@ && "quit"@ != "get"@ && "quit"@ != "set"@
            && "quit"@ != "do"@ && "quit"@ != "watch"@ && "quit"@ != "shot"@,
{
    reveal_strlit("list");
    reveal_strlit("tree");
    reveal_strlit("get");
    reveal_strlit("set");
    reveal_strlit("do");
    reveal_strlit("watch");
    reveal_strlit("shot");
    reveal_strlit("quit");
    assert("list"@ =~= seq!['l', 'i', 's', 't']);
    assert("tree"@ =~= seq!['t', 'r', 'e', 'e']);
    assert("get"@ =~= seq!['g', 'e', 't']);
    assert("set"@ =~= seq!['s', 'e', 't']);
    assert("do"@ =~= seq!['d', 'o']);
    assert("watch"@ =~= seq!['w', 'a', 't', 'c', 'h']);
    assert("shot"@ =~= seq!['s', 'h', 'o', 't']);
    assert("quit"@ =~= seq!['q', 'u', 'i', 't']);
    assert("list"@[0] == 'l' && "tree"@[0] == 't' && "shot"@[0] == 's' && "quit"@[0] == 'q');
    assert("get"@[0] == 'g' && "set"@[0] == 's');
}

/// A request of words asks for what its first word says, of the path and the
/// property that it names: without a path, a listing is of the whole window
/// and a watch is of everything.
pub proof fn a_request_asks_for_what_it_says(path: Seq<char>, prop: Seq<char>)
    requires
        one_word(path),
        one_word(prop),
    ensures
        request_of("list"@) == (RequestView::List { path: ROOT@, indent: false }),
        request_of("tree"@) == (RequestView::List { path: ROOT@, indent: true }),
        request_of(joined(seq!["list"@, path], ' ')) == (RequestView::List { path, indent: false }),
        request_of(joined(seq!["tree"@, path], ' ')) == (RequestView::List { path, indent: true }),
        request_of(joined(seq!["get"@, path], ' ')) == (RequestView::Get { path, only: None }),
        request_of(joined(seq!["get"@, path, prop], ' ')) == (RequestView::Get {
            path,
            only: Some(prop),
        }),
        request_of("watch"@) == (RequestView::Watch { path: "*"@ }),
        request_of(joined(seq!["watch"@, path], ' ')) == (RequestView::Watch { path }),
        request_of("shot"@) is Shot,
        request_of("quit"@) is Quit,
        request_of("get"@) is Bad,
        request_of("set"@) is Bad,
        request_of("do"@) is Bad,
        request_of(joined(seq!["set"@, path], ' ')) is Bad,
        request_of(joined(seq!["do"@, path], ' ')) is Bad,
{
    lemma_commands();
    lemma_single_word("list"@);
    lemma_single_word("tree"@);
    lemma_single_word("get"@);
    lemma_single_word("set"@);
    lemma_single_word("do"@);
    lemma_single_word("watch"@);
    lemma_single_word("shot"@);
    lemma_single_word("quit"@);
    words_are_taken_apart(seq!["list"@, path]);
    words_are_taken_apart(seq!["tree"@, path]);
    words_are_taken_apart(seq!["get"@, path]);
    words_are_taken_apart(seq!["get"@, path, prop]);
    words_are_taken_apart(seq!["watch"@, path]);
    words_are_taken_apart(seq!["set"@, path]);
    words_are_taken_apart(seq!["do"@, path]);
    reveal_strlit("set");
    reveal_strlit("list");
    reveal_strlit("tree");
    reveal_strlit("get");
    assert("set"@[0] == 's' && "list"@.len() == 4 && "tree"@.len() == 4 && "set"@.len() == 3);
    assert("get"@[0] == 'g');
}

/// A line that starts with no word that is known is refused, whatever is
/// behind it, and so is one with no word.
pub proof fn an_unknown_request_is_refused(line: Seq<char>)
    requires
        words(chomped(line)).len() > 0 ==> ({
            let cmd = words(chomped(line))[0];
            &&& cmd != "list"@ && cmd != "tree"@ && cmd != "get"@ && cmd != "set"@
            &&& cmd != "do"@ && cmd != "watch"@ && cmd != "shot"@ && cmd != "quit"@
        }),
    ensures
        request_of(line) is Bad,
{
}

// ---------------------------------------------------------------------
// replies
// ---------------------------------------------------------------------

/// A message on one line.
pub open spec fn one_line(msg: Seq<char>) -> Seq<char> {
    msg.map_values(
        |c: char|
            if c == '\n' || c == '\r' {
                ' '
            } else {
                c
            },
    )
}

/// The reply to a request that failed.
pub open spec fn err_text(msg: Seq<char>) -> Seq<char> {
    "err "@ + one_line(msg) + "\n\n"@
}

/// The reply to a request that succeeded and has nothing to say.
pub open spec fn ok_text() -> Seq<char> {
    "ok\n\n"@
}

/// The reply to a request that succeeded with `body`.
pub open spec fn body_text(body: Seq<char>) -> Seq<char> {
    "ok\n"@ + body + seq!['\n']
}

/// The reply to a request that failed.
pub fn err(msg: &str) -> (out: String)
    ensures
        out@ == err_text(msg@),
{
    let v = chars_of(msg);
    let mut out = "err ".to_owned();
    let ghost head = out@;
    let mut i: usize = 0;
    while i < v.len()
        invariant
            i <= v.len(),
            v@ == msg@,
            out@ == head + one_line(v@).take(i as int),
        decreases v.len() - i,
    {
        let c = v[i];
        if c == '\n' || c == '\r' {
            out.push(' ');
        } else {
            out.push(c);
        }
        proof {
            let flat = one_line(v@);
            assert(flat.take(i + 1) =~= flat.take(i as int).push(flat[i as int]));
            assert(out@ =~= head + flat.take(i + 1));
        }
        i += 1;
    }
    assert(one_line(v@).take(i as int) =~= one_line(v@));
    out.append("\n\n");
    out
}

/// The reply to a request that succeeded and has nothing to say.
pub fn ok_empty() -> (out: String)
    ensures
        out@ == ok_text(),
{
    "ok\n\n".to_owned()
}

/// The reply to a request that succeeded with `body`.
pub fn ok_body(body: &str) -> (out: String)
    ensures
        out@ == body_text(body@),
{
    let mut out = "ok\n".to_owned();
    out.append(body);
    out.push('\n');
    assert(out@ =~= body_text(body@));
    out
}

/// A line goes up to the first line feed, and where there is none, all there
/// is is still waiting.
pub proof fn a_line_goes_up_to_the_line_feed(a: Seq<u8>, b: Seq<u8>)
    requires
        forall|i: int| 0 <= i < a.len() ==> a[i] != 10,
    ensures
        line_len(a + seq![10u8] + b) == a.len(),
        line_len(a) == a.len(),
    decreases a.len(),
{
    let all = a + seq![10u8] + b;
    if a.len() == 0 {
        assert(all[0] == 10);
    } else {
        let rest = a.drop_first();
        assert(a[0] != 10);
        assert forall|i: int| 0 <= i < rest.len() implies rest[i] != 10 by {
            assert(rest[i] == a[i + 1]);
        }
        a_line_goes_up_to_the_line_feed(rest, b);
        assert(all.drop_first() =~= rest + seq![10u8] + b);
        assert(all[0] == a[0]);
    }
}

} // verus!
