//! Where an app's introspection socket lives, and how the sockets of other
//! apps are told apart from what dead ones left behind.

use vstd::prelude::*;

use crate::chars::{
    chars_of, comes_before, dec, decimal, decimal_round_trip, lemma_dec, lemma_text_chain,
    lemma_text_order, owned, parse_dec, parse_decimal, same, slice_of, string_of, text_before,
    text_eq,
};

verus! {

/// Environment variable overriding the socket directory.
pub const DIR_ENV: &'static str = "NITRO_APPS_DIR";

/// A character of a file name component; anything else becomes `_`.
pub open spec fn safe_char(c: char) -> char {
    if ('a' <= c <= 'z') || ('A' <= c <= 'Z') || ('0' <= c <= '9') || c == '.' || c == '_' || c == '-' {
        c
    } else {
        '_'
    }
}

/// An app name as a file name component.
pub open spec fn sanitized(s: Seq<char>) -> Seq<char> {
    if s.len() == 0 {
        "app"@
    } else {
        s.map_values(|c: char| safe_char(c))
    }
}

/// Sanitise an app name into a file name component.
pub fn sanitize(name: &str) -> (out: String)
    ensures
        out@ == sanitized(name@),
{
    let v = chars_of(name);
    if v.len() == 0 {
        return "app".to_owned();
    }
    let mut out = String::new();
    let mut i: usize = 0;
    while i < v.len()
        invariant
            i <= v.len(),
            out@.len() == i,
            forall|k: int| 0 <= k < i ==> out@[k] == safe_char(v@[k]),
        decreases v.len() - i,
    {
        let c = v[i];
        if ('a' <= c && c <= 'z') || ('A' <= c && c <= 'Z') || ('0' <= c && c <= '9') || c == '.' || c
            == '_' || c == '-' {
            out.push(c);
        } else {
            out.push('_');
        }
        i += 1;
    }
    assert(out@ =~= sanitized(name@));
    out
}

/// A path with one more component.
pub open spec fn path_join(dir: Seq<char>, name: Seq<char>) -> Seq<char> {
    if dir.len() == 0 || dir.last() == '/' {
        dir + name
    } else {
        dir + seq!['/'] + name
    }
}

/// `dir` with the relative component `name` under it.
pub fn join_path(dir: &str, name: &str) -> (out: String)
    ensures
        out@ == path_join(dir@, name@),
{
    let v = chars_of(dir);
    let mut out = owned(dir);
    if v.len() > 0 && v[v.len() - 1] != '/' {
        out.push('/');
    }
    out.append(name);
    assert(out@ =~= path_join(dir@, name@));
    out
}

/// The directory a per-user socket lives in, given the environment: under
/// the runtime directory if that is absolute, else under `/tmp`.
pub open spec fn user_dir(runtime: Option<Seq<char>>, uid: nat) -> Seq<char> {
    match runtime {
        Some(d) => if d.len() > 0 && d[0] == '/' {
            path_join(d, "nitro"@)
        } else {
            "/tmp/nitro-"@ + dec(uid)
        },
        None => "/tmp/nitro-"@ + dec(uid),
    }
}

/// The directory a per-user socket lives in.
pub fn resolve_user_dir(runtime_dir: Option<&str>, uid: u32) -> (out: String)
    ensures
        out@ == user_dir(str_view(runtime_dir), uid as nat),
{
    if let Some(d) = runtime_dir {
        let v = chars_of(d);
        if v.len() > 0 && v[0] == '/' {
            return join_path(d, "nitro");
        }
    }
    let mut out = "/tmp/nitro-".to_owned();
    let digits = decimal(uid as u64);
    out.append(digits.as_str());
    out
}

/// An optional string slice as an optional sequence of characters.
pub open spec fn str_view(s: Option<&str>) -> Option<Seq<char>> {
    match s {
        Some(t) => Some(t@),
        None => None,
    }
}

/// The directory app sockets live in, given the environment: the override,
/// else `<runtime>/nitro/apps`, else `/tmp/nitro-<uid>/apps`.
pub fn resolve_dir(override_dir: Option<&str>, runtime_dir: Option<&str>, uid: u32) -> (out: String)
    ensures
        out@ == (match override_dir {
            Some(d) => d@,
            None => path_join(user_dir(str_view(runtime_dir), uid as nat), "apps"@),
        }),
{
    if let Some(d) = override_dir {
        return owned(d);
    }
    let dir = resolve_user_dir(runtime_dir, uid);
    join_path(dir.as_str(), "apps")
}

/// The socket's file name for the app `name` in the process `pid`.
pub open spec fn socket_file(name: Seq<char>, pid: nat) -> Seq<char> {
    sanitized(name) + seq!['.'] + dec(pid) + ".sock"@
}

/// The socket's file name: `<name>.<pid>.sock`.
pub fn socket_name(name: &str, pid: u32) -> (out: String)
    ensures
        out@ == socket_file(name@, pid as nat),
{
    let mut out = sanitize(name);
    out.push('.');
    let digits = decimal(pid as u64);
    out.append(digits.as_str());
    out.append(".sock");
    assert(out@ =~= socket_file(name@, pid as nat));
    out
}

/// The position behind the last `c` of `s`, or 0.
pub open spec fn after_last(s: Seq<char>, c: char) -> nat
    decreases s.len(),
{
    if s.len() == 0 {
        0
    } else if s.last() == c {
        s.len()
    } else {
        after_last(s.drop_last(), c)
    }
}

/// `<name>.<pid>.sock` as its two parts.
pub open spec fn socket_parts(file: Seq<char>) -> Option<(Seq<char>, nat)> {
    let tail = ".sock"@;
    if file.len() >= tail.len() && file.skip(file.len() - tail.len()) == tail {
        let stem = file.take(file.len() - tail.len());
        let i = after_last(stem, '.') as int;
        if i <= 1 {
            None
        } else {
            match parse_dec(stem.skip(i), u32::MAX as nat) {
                Some(pid) => Some((stem.take(i - 1), pid)),
                None => None,
            }
        }
    } else {
        None
    }
}

proof fn lemma_after_last(head: Seq<char>, tail: Seq<char>, c: char)
    requires
        forall|i: int| 0 <= i < tail.len() ==> tail[i] != c,
    ensures
        after_last(head.push(c) + tail, c) == head.len() + 1,
    decreases tail.len(),
{
    let s = head.push(c) + tail;
    if tail.len() == 0 {
        assert(s =~= head.push(c));
    } else {
        assert(s.drop_last() =~= head.push(c) + tail.drop_last());
        assert(s.last() == tail.last());
        lemma_after_last(head, tail.drop_last(), c);
    }
}

/// A socket's file name gives back the app's sanitised name and its pid.
pub proof fn socket_names_round_trip(name: Seq<char>, pid: u32)
    ensures
        socket_parts(socket_file(name, pid as nat)) == Some((sanitized(name), pid as nat)),
{
    reveal_strlit(".sock");
    reveal_strlit("app");
    let head = sanitized(name);
    let digits = dec(pid as nat);
    let file = socket_file(name, pid as nat);
    let stem = head.push('.') + digits;
    lemma_dec(pid as nat);
    lemma_after_last(head, digits, '.');
    assert(file =~= stem + ".sock"@);
    assert(file.skip(file.len() - 5) =~= ".sock"@);
    assert(file.take(file.len() - 5) =~= stem);
    assert(stem.skip(head.len() as int + 1) =~= digits);
    assert(stem.take(head.len() as int) =~= head);
    decimal_round_trip(pid as nat, u32::MAX as nat);
}

/// Split `<name>.<pid>.sock` back into its parts.
pub fn parse_socket_name(file: &str) -> (r: Option<(String, u32)>)
    ensures
        match r {
            Some(p) => socket_parts(file@) == Some((p.0@, p.1 as nat)),
            None => socket_parts(file@) is None,
        },
{
    let v = chars_of(file);
    let tail = chars_of(".sock");
    proof {
        reveal_strlit(".sock");
        assert(tail@.len() == 5);
    }
    if v.len() < 5 {
        return None;
    }
    let n: usize = v.len() - 5;
    let end = slice_of(v.as_slice(), n, v.len());
    assert(end@ =~= v@.skip(n as int));
    if !same(end.as_slice(), tail.as_slice()) {
        return None;
    }
    let ghost stem = v@.take(n as int);
    let mut i: usize = n;
    assert(stem.take(n as int) =~= stem);
    while i > 0 && v[i - 1] != '.'
        invariant
            i <= n,
            n <= v.len(),
            stem == v@.take(n as int),
            after_last(stem, '.') == after_last(stem.take(i as int), '.'),
        decreases i,
    {
        assert(stem.take(i as int).last() == v@[i - 1]);
        assert(stem.take(i as int).drop_last() =~= stem.take(i - 1));
        i -= 1;
    }
    proof {
        if i > 0 {
            assert(stem.take(i as int).last() == v@[i - 1]);
        }
        assert(after_last(stem, '.') == i);
    }
    if i <= 1 {
        return None;
    }
    let digits = slice_of(v.as_slice(), i, n);
    assert(digits@ =~= stem.skip(i as int));
    let name = slice_of(v.as_slice(), 0, i - 1);
    assert(name@ =~= stem.take(i - 1));
    match parse_decimal(digits.as_slice(), u32::MAX as u64) {
        Some(pid) => Some((string_of(name.as_slice()), pid as u32)),
        None => None,
    }
}

// ---------------------------------------------------------------------
// the directory of sockets
// ---------------------------------------------------------------------

/// One app socket found in the directory: its name, pid and path.
#[derive(Debug, Clone, PartialEq, Eq)]
pub struct AppSocket {
    /// The app's (sanitised) name.
    pub name: String,
    /// The app's process id.
    pub pid: u32,
    /// Full path of the socket.
    pub path: String,
}

/// What an [`AppSocket`] holds, as mathematical values.
pub struct AppView {
    /// The app's name.
    pub name: Seq<char>,
    /// The app's process id.
    pub pid: u32,
    /// Full path of the socket.
    pub path: Seq<char>,
}

impl View for AppSocket {
    type V = AppView;

    open spec fn view(&self) -> AppView {
        AppView { name: self.name@, pid: self.pid, path: self.path@ }
    }
}

/// What a run of sockets holds.
pub open spec fn apps_view(s: Seq<AppSocket>) -> Seq<AppView> {
    s.map_values(|a: AppSocket| a@)
}

/// How an attempt to connect to a socket file ended.
#[derive(Debug, Clone, Copy, PartialEq, Eq, Structural)]
pub enum Dial {
    /// The connection was queued: something is listening.
    Answered,
    /// The connection was refused.
    Refused,
    /// There is no such file.
    Missing,
    /// Anything else went wrong.
    Unknown,
}

/// Whether anything may be listening, after a connect that ended like
/// `dial`.
///
/// Only a refusal and a missing file prove that nothing is. Every other
/// failure leaves the question open, and the file is then left alone.
pub fn responds(dial: Dial) -> (r: bool)
    ensures
        r == !(dial is Refused || dial is Missing),
{
    dial != Dial::Refused && dial != Dial::Missing
}

/// Whether a socket is a leftover rather than a running app: its process is
/// gone, or nothing listens on it.
///
/// A dead app that was not reaped yet still counts as alive, and so does
/// one whose pid went to another process; the connect tells.
pub fn stale(alive: bool, dial: Dial) -> (r: bool)
    ensures
        r == (!alive || dial is Refused || dial is Missing),
{
    !alive || !responds(dial)
}

/// Where the kernel lists the process `pid` while it exists.
pub fn process_path(pid: u32) -> (out: String)
    ensures
        out@ == "/proc/"@ + dec(pid as nat),
{
    let mut out = "/proc/".to_owned();
    let digits = decimal(pid as u64);
    out.append(digits.as_str());
    out
}

/// The pid in the socket file name `file`, if it belongs to the app `name`:
/// what a sweep of the app's own leftovers has to ask about.
pub fn sibling(file: &str, name: &str) -> (r: Option<u32>)
    ensures
        r == (match socket_parts(file@) {
            Some(p) => if p.0 == name@ {
                Some(p.1 as u32)
            } else {
                None
            },
            None => None,
        }),
{
    match parse_socket_name(file) {
        Some(p) => if text_eq(p.0.as_str(), name) {
            Some(p.1)
        } else {
            None
        },
        None => None,
    }
}

/// The socket that the file `file` at `path` is, if it is one at all.
pub fn found(file: &str, path: &str) -> (r: Option<AppSocket>)
    ensures
        match r {
            Some(a) => socket_parts(file@) == Some((a@.name, a@.pid as nat)) && a@.path == path@,
            None => socket_parts(file@) is None,
        },
{
    match parse_socket_name(file) {
        Some(p) => Some(AppSocket { name: p.0, pid: p.1, path: owned(path) }),
        None => None,
    }
}

/// Whether one app is listed before another: by name, then by pid.
pub open spec fn app_before(a: AppView, b: AppView) -> bool {
    text_before(a.name, b.name) || (a.name == b.name && a.pid < b.pid)
}

/// `s` with `x` behind everything that is not listed after it.
pub open spec fn inserted(s: Seq<AppView>, x: AppView) -> Seq<AppView>
    decreases s.len(),
{
    if s.len() == 0 || !app_before(x, s.last()) {
        s.push(x)
    } else {
        inserted(s.drop_last(), x).push(s.last())
    }
}

/// `s` by name, then by pid; equals keep their order.
pub open spec fn arranged(s: Seq<AppView>) -> Seq<AppView>
    decreases s.len(),
{
    if s.len() == 0 {
        s
    } else {
        inserted(arranged(s.drop_last()), s.last())
    }
}

proof fn lemma_app_chain(a: AppView, b: AppView, c: AppView)
    requires
        app_before(a, b),
        !app_before(c, b),
    ensures
        app_before(a, c),
{
    lemma_text_order(b.name, c.name);
    lemma_text_order(a.name, b.name);
    if text_before(a.name, b.name) && text_before(b.name, c.name) {
        lemma_text_chain(a.name, b.name, c.name);
    }
}

proof fn lemma_inserted(s: Seq<AppView>, x: AppView)
    requires
        forall|i: int, j: int| 0 <= i < j < s.len() ==> !app_before(#[trigger] s[j], #[trigger] s[i]),
    ensures
        inserted(s, x).to_multiset() == s.to_multiset().insert(x),
        inserted(s, x).len() == s.len() + 1,
        forall|i: int, j: int|
            0 <= i < j < inserted(s, x).len() ==> !app_before(
                #[trigger] inserted(s, x)[j],
                #[trigger] inserted(s, x)[i],
            ),
        forall|i: int|
            0 <= i < inserted(s, x).len() ==> #[trigger] inserted(s, x)[i] == x || s.contains(
                inserted(s, x)[i],
            ),
    decreases s.len(),
{
    broadcast use vstd::seq_lib::group_to_multiset_ensures;

    let out = inserted(s, x);
    if s.len() == 0 {
        assert(s.to_multiset().insert(x) =~= s.push(x).to_multiset());
    } else if !app_before(x, s.last()) {
        assert(out.to_multiset() =~= s.to_multiset().insert(x));
        assert forall|i: int, j: int| 0 <= i < j < out.len() implies !app_before(
            #[trigger] out[j],
            #[trigger] out[i],
        ) by {
            if j == s.len() && i < s.len() - 1 && app_before(x, s[i]) {
                lemma_app_chain(x, s[i], s.last());
            }
        }
        assert forall|i: int| 0 <= i < out.len() implies #[trigger] out[i] == x || s.contains(
            out[i],
        ) by {
            if i < s.len() {
                assert(s[i] == out[i]);
            }
        }
    } else {
        let head = s.drop_last();
        let top = s.last();
        lemma_inserted(head, x);
        let mid = inserted(head, x);
        assert(s =~= head.push(top));
        assert(out.to_multiset() =~= s.to_multiset().insert(x));
        assert forall|i: int, j: int| 0 <= i < j < out.len() implies !app_before(
            #[trigger] out[j],
            #[trigger] out[i],
        ) by {
            if j == mid.len() {
                assert(out[i] == mid[i]);
                if mid[i] == x {
                    lemma_text_order(x.name, top.name);
                } else {
                    let k = choose|k: int| 0 <= k < head.len() && head[k] == mid[i];
                    assert(s[k] == head[k]);
                    assert(!app_before(s[s.len() - 1], s[k]));
                }
            } else {
                assert(out[i] == mid[i] && out[j] == mid[j]);
            }
        }
        assert forall|i: int| 0 <= i < out.len() implies #[trigger] out[i] == x || s.contains(
            out[i],
        ) by {
            if i < mid.len() {
                assert(out[i] == mid[i]);
                if mid[i] != x {
                    let k = choose|k: int| 0 <= k < head.len() && head[k] == mid[i];
                    assert(s[k] == mid[i]);
                }
            } else {
                assert(s[s.len() - 1] == out[i]);
            }
        }
    }
}

/// The listing is in order, and holds exactly what was found.
pub proof fn the_listing_is_in_order(s: Seq<AppView>)
    ensures
        arranged(s).to_multiset() == s.to_multiset(),
        forall|i: int, j: int|
            0 <= i < j < arranged(s).len() ==> !app_before(
                #[trigger] arranged(s)[j],
                #[trigger] arranged(s)[i],
            ),
    decreases s.len(),
{
    broadcast use vstd::seq_lib::group_to_multiset_ensures;

    if s.len() > 0 {
        the_listing_is_in_order(s.drop_last());
        lemma_inserted(arranged(s.drop_last()), s.last());
        assert(s =~= s.drop_last().push(s.last()));
    }
}

fn listed_before(a: &AppSocket, b: &AppSocket) -> (r: bool)
    ensures
        r == app_before(a@, b@),
{
    let x = chars_of(a.name.as_str());
    let y = chars_of(b.name.as_str());
    comes_before(x.as_slice(), y.as_slice()) || (same(x.as_slice(), y.as_slice()) && a.pid
        < b.pid)
}

fn insert_app(list: &mut Vec<AppSocket>, x: AppSocket)
    ensures
        apps_view(final(list)@) == inserted(apps_view(old(list)@), x@),
{
    let n: usize = list.len();
    let ghost before = list@;
    let ghost all = apps_view(before);
    let mut i: usize = n;
    assert(all.take(n as int) =~= all);
    assert(all.skip(n as int) =~= Seq::<AppView>::empty());
    assert(inserted(all, x@) =~= inserted(all, x@) + all.skip(n as int));
    while i > 0 && listed_before(&x, &list[i - 1])
        invariant
            i <= n,
            n == list.len(),
            list@ == before,
            all == apps_view(before),
            inserted(all, x@) == inserted(all.take(i as int), x@) + all.skip(i as int),
        decreases i,
    {
        proof {
            let head = all.take(i as int);
            assert(head.last() == list@[i - 1]@);
            assert(head.drop_last() =~= all.take(i - 1));
            assert(inserted(head, x@) == inserted(all.take(i - 1), x@).push(head.last()));
            assert(inserted(all.take(i - 1), x@).push(head.last()) + all.skip(i as int)
                =~= inserted(all.take(i - 1), x@) + all.skip(i - 1));
        }
        i -= 1;
    }
    proof {
        if i > 0 {
            assert(all.take(i as int).last() == list@[i - 1]@);
        }
        assert(inserted(all.take(i as int), x@) == all.take(i as int).push(x@));
    }
    list.insert(i, x);
    assert(apps_view(list@) =~= all.take(i as int).push(x@) + all.skip(i as int));
}

/// The sockets by name, then by pid, as a listing shows them.
pub fn sort_apps(found: Vec<AppSocket>) -> (out: Vec<AppSocket>)
    ensures
        apps_view(out@) == arranged(apps_view(found@)),
{
    let mut found = found;
    let ghost all = apps_view(found@);
    let mut queue: Vec<AppSocket> = Vec::new();
    while found.len() > 0
        invariant
            apps_view(found@) + apps_view(queue@).reverse() == all,
        decreases found.len(),
    {
        let ghost f = apps_view(found@);
        let ghost q = apps_view(queue@);
        let last = found.pop().unwrap();
        queue.push(last);
        assert(apps_view(found@) + apps_view(queue@).reverse() =~= f + q.reverse());
    }
    let mut out: Vec<AppSocket> = Vec::new();
    let ghost mut k: int = 0;
    assert(apps_view(found@) + apps_view(queue@).reverse() =~= apps_view(queue@).reverse());
    assert(all.take(0) =~= Seq::<AppView>::empty());
    assert(apps_view(out@) =~= arranged(all.take(0)));
    while queue.len() > 0
        invariant
            0 <= k <= all.len(),
            all.skip(k) == apps_view(queue@).reverse(),
            apps_view(out@) == arranged(all.take(k)),
        decreases queue.len(),
    {
        let ghost q = apps_view(queue@);
        let next = queue.pop().unwrap();
        proof {
            assert(q.reverse()[0] == next@);
            assert(all.skip(k).len() == q.len());
            assert(all.skip(k)[0] == all[k]);
            assert(all.take(k + 1).drop_last() =~= all.take(k));
            assert(all.skip(k + 1) =~= all.skip(k).drop_first());
            assert(apps_view(queue@).reverse() =~= q.reverse().drop_first());
        }
        insert_app(&mut out, next);
        proof {
            k = k + 1;
        }
    }
    proof {
        assert(all.skip(k).len() == 0);
        assert(all.take(k) =~= all);
    }
    out
}

/// The apps are listed by their names, and those of one name by their
/// numbers.
pub proof fn apps_are_listed_by_name(s: Seq<AppView>, i: int, j: int)
    requires
        0 <= i < j < arranged(s).len(),
    ensures
        arranged(s)[i].name == arranged(s)[j].name || text_before(
            arranged(s)[i].name,
            arranged(s)[j].name,
        ),
        arranged(s)[i].name == arranged(s)[j].name ==> arranged(s)[i].pid <= arranged(s)[j].pid,
{
    the_listing_is_in_order(s);
    lemma_text_order(arranged(s)[i].name, arranged(s)[j].name);
    assert(!app_before(arranged(s)[j], arranged(s)[i]));
}

proof fn lemma_after_last_is(s: Seq<char>, c: char)
    ensures
        after_last(s, c) <= s.len(),
        after_last(s, c) > 0 ==> s[after_last(s, c) - 1] == c,
        forall|i: int| after_last(s, c) <= i < s.len() ==> s[i] != c,
    decreases s.len(),
{
    if s.len() > 0 && s.last() != c {
        lemma_after_last_is(s.drop_last(), c);
        assert forall|i: int| after_last(s, c) <= i < s.len() implies s[i] != c by {
            if i < s.len() - 1 {
                assert(s.drop_last()[i] == s[i]);
            }
        }
    }
}

/// Whether a file is called by a name, a number and what sockets end with.
pub open spec fn called_so(file: Seq<char>, name: Seq<char>, digits: Seq<char>) -> bool {
    &&& file == name + seq!['.'] + digits + ".sock"@
    &&& name.len() > 0
    &&& forall|i: int| 0 <= i < digits.len() ==> digits[i] != '.'
}

/// A file is taken for the socket of an app exactly when it is called by a
/// name, which is not empty, a dot, a number, and what sockets end with; and
/// the app has that name and that number.
pub proof fn other_files_are_no_sockets(file: Seq<char>, name: Seq<char>, digits: Seq<char>)
    ensures
        called_so(file, name, digits) ==> socket_parts(file) == (match parse_dec(
            digits,
            u32::MAX as nat,
        ) {
            Some(pid) => Some((name, pid)),
            None => None,
        }),
        socket_parts(file) is Some ==> exists|d: Seq<char>| #[trigger]
            called_so(file, (socket_parts(file)->0).0, d) && parse_dec(d, u32::MAX as nat) == Some(
                (socket_parts(file)->0).1,
            ),
{
    reveal_strlit(".sock");
    let tail = ".sock"@;
    assert(tail.len() == 5);
    if called_so(file, name, digits) {
        let stem = name.push('.') + digits;
        lemma_after_last(name, digits, '.');
        assert(file =~= stem + tail);
        assert(file.skip(file.len() - 5) =~= tail);
        assert(file.take(file.len() - 5) =~= stem);
        assert(stem.skip(name.len() as int + 1) =~= digits);
        assert(stem.take(name.len() as int) =~= name);
    }
    if socket_parts(file) is Some {
        let stem = file.take(file.len() - 5);
        let i = after_last(stem, '.') as int;
        lemma_after_last_is(stem, '.');
        let d = stem.skip(i);
        let head = stem.take(i - 1);
        assert(file =~= head + seq!['.'] + d + tail) by {
            assert(file.skip(file.len() - 5) == tail);
            assert forall|k: int| file.len() - 5 <= k < file.len() implies file[k] == tail[k - (
            file.len() - 5)] by {
                assert(file.skip(file.len() - 5)[k - (file.len() - 5)] == file[k]);
            }
        }
        assert((socket_parts(file)->0).0 == head);
        assert(parse_dec(d, u32::MAX as nat) == Some((socket_parts(file)->0).1));
        assert(called_so(file, head, d));
        assert(called_so(file, (socket_parts(file)->0).0, d));
    }
}

/// A path joined to a directory starts with the one and ends with the other,
/// with one slash between them.
pub proof fn joining_puts_one_slash_between(dir: Seq<char>, name: Seq<char>)
    ensures
        path_join(seq!['/'] + dir, name) == path_join(seq!['/'] + dir + seq!['/'], name) || dir.len()
            == 0 || dir.last() == '/',
        path_join(dir + seq!['/'], name) == dir + seq!['/'] + name,
        path_join(Seq::empty(), name) == name,
        dir.len() > 0 && dir.last() != '/' ==> path_join(dir, name) == path_join(
            dir + seq!['/'],
            name,
        ),
{
    assert((dir + seq!['/']).last() == '/');
    assert(Seq::<char>::empty() + name =~= name);
    let d = seq!['/'] + dir;
    if dir.len() > 0 {
        assert(d.last() == dir.last());
    }
    assert((d + seq!['/']).last() == '/');
}

/// The directory of a user is an absolute one, whatever the environment says.
pub proof fn the_directory_of_a_user_is_absolute(runtime: Option<Seq<char>>, uid: nat)
    ensures
        user_dir(runtime, uid).len() > 0,
        user_dir(runtime, uid)[0] == '/',
        runtime is Some && runtime->0.len() > 0 && (runtime->0)[0] == '/' ==> user_dir(runtime, uid)
            == path_join(runtime->0, "nitro"@),
        runtime is None || runtime->0.len() == 0 || (runtime->0)[0] != '/' ==> user_dir(runtime, uid)
            == user_dir(None, uid),
{
    reveal_strlit("/tmp/nitro-");
}

/// A name that is made safe has letters, digits, dots, dashes and underlines
/// only; it is never empty and no longer than it was; and one that was safe
/// already is left as it is.
pub proof fn a_safe_name_is_left_alone(s: Seq<char>)
    requires
        s.len() > 0,
    ensures
        sanitized(s).len() == s.len(),
        forall|i: int|
            0 <= i < s.len() ==> {
                let c = #[trigger] s[i];
                let d = sanitized(s)[i];
                &&& 'a' <= d <= 'z' || 'A' <= d <= 'Z' || '0' <= d <= '9' || d == '.' || d == '_' || d
                    == '-'
                &&& d == c || d == '_'
                &&& ('a' <= c <= 'z' || 'A' <= c <= 'Z' || '0' <= c <= '9' || c == '.' || c == '-')
                    ==> d == c
            },
        sanitized(sanitized(s)) == sanitized(s),
{
    let t = sanitized(s);
    assert forall|i: int| 0 <= i < t.len() implies sanitized(t)[i] == t[i] by {
        assert(t[i] == safe_char(s[i]));
    }
    assert(sanitized(t) =~= t);
}

} // verus!
