//! Which script a text is in, and where its lines break.
//!
//! Widths are the shaper's: it says of each cluster whether it would run
//! over the limit, and is told where the line ends.

use std::ops::Range;

use vstd::prelude::*;
use vstd::string::*;

use crate::chars::{owned, text_eq};
use crate::introspect::text::strings_view;

verus! {

// ---------------------------------------------------------------------
// scripts
// ---------------------------------------------------------------------

/// The name of the script of each character of a text.
pub uninterp spec fn script_names(text: Seq<char>) -> Seq<Seq<char>>;

/// Calls `swash::text::analyze` and takes the `name` of the `script` of each
/// character's properties. There is one for each character, and they depend
/// on the text alone.
#[verifier::external_body]
fn analyze(text: &str) -> (out: Vec<String>)
    ensures
        strings_view(out@) == script_names(text@),
        out@.len() == text@.len(),
{
    swash::text::analyze(text.chars())
        .map(|(props, _)| props.script().name().to_owned())
        .collect()
}

/// Whether a script is one that a text can be written in, rather than what
/// characters are said to have that many scripts share, that take the one of
/// what they stand behind, or of which nothing is known.
pub open spec fn is_strong(script: Seq<char>) -> bool {
    script != "Common"@ && script != "Inherited"@ && script != "Unknown"@
}

fn strong(script: &str) -> (r: bool)
    ensures
        r == is_strong(script@),
{
    !text_eq(script, "Common") && !text_eq(script, "Inherited") && !text_eq(script, "Unknown")
}

/// The script a text is shaped in, given that of each of its characters: the
/// first that it can be written in, and Latin where there is none.
pub open spec fn main_script(scripts: Seq<Seq<char>>) -> Seq<char>
    decreases scripts.len(),
{
    if scripts.len() == 0 {
        "Latin"@
    } else if is_strong(scripts[0]) {
        scripts[0]
    } else {
        main_script(scripts.drop_first())
    }
}

/// The script a text is shaped in, given that of each of its characters.
pub fn first_strong(scripts: &Vec<String>) -> (name: String)
    ensures
        name@ == main_script(strings_view(scripts@)),
{
    let ghost all = strings_view(scripts@);
    let mut i: usize = 0;
    assert(all.skip(0) =~= all);
    while i < scripts.len()
        invariant
            i <= scripts@.len(),
            all == strings_view(scripts@),
            main_script(all) == main_script(all.skip(i as int)),
        decreases scripts.len() - i,
    {
        assert(all.skip(i as int)[0] == scripts@[i as int]@);
        if strong(scripts[i].as_str()) {
            return owned(scripts[i].as_str());
        }
        assert(all.skip(i as int).drop_first() =~= all.skip(i + 1));
        i += 1;
    }
    "Latin".to_owned()
}

/// The name of the script a text is shaped in: that of its first character
/// with one of its own, and Latin where there is none.
pub fn detect_script(text: &str) -> (name: String)
    ensures
        name@ == main_script(script_names(text@)),
{
    let scripts = analyze(text);
    first_strong(&scripts)
}

// ---------------------------------------------------------------------
// line breaking
// ---------------------------------------------------------------------

/// Greedy line breaking, cluster by cluster.
pub struct Wrap {
    lines: Vec<Range<usize>>,
    start: usize,
    last_break: Option<usize>,
    next: usize,
}

/// What a [`Wrap`] holds, as mathematical values.
pub struct WrapView {
    /// The lines that are complete: the clusters from the one up to the
    /// other.
    pub lines: Seq<(int, int)>,
    /// Where the line that is not complete starts.
    pub start: int,
    /// Behind the last white space that was seen.
    pub last_break: Option<int>,
    /// The next cluster.
    pub next: int,
}

/// What a run of ranges spans.
pub open spec fn spans(s: Seq<Range<usize>>) -> Seq<(int, int)> {
    s.map_values(|r: Range<usize>| (r.start as int, r.end as int))
}

impl View for Wrap {
    type V = WrapView;

    closed spec fn view(&self) -> WrapView {
        WrapView {
            lines: spans(self.lines@),
            start: self.start as int,
            last_break: match self.last_break {
                Some(b) => Some(b as int),
                None => None,
            },
            next: self.next as int,
        }
    }
}

/// Where the line ends before a cluster that runs over: behind the last
/// white space on it, or right here where it has none.
pub open spec fn break_at(v: WrapView) -> int {
    match v.last_break {
        Some(b) => if b > v.start {
            b
        } else {
            v.next
        },
        None => v.next,
    }
}

/// Whether the line ends before the next cluster. White space never starts a
/// line for being too wide, and a line holds at least one cluster.
pub open spec fn breaks(v: WrapView, space: bool, over: bool) -> bool {
    !space && over && v.next > v.start
}

/// The next cluster taken in.
pub open spec fn stepped(v: WrapView, space: bool, over: bool) -> WrapView {
    let w = if breaks(v, space, over) {
        WrapView {
            lines: v.lines.push((v.start, break_at(v))),
            start: break_at(v),
            last_break: None,
            ..v
        }
    } else {
        v
    };
    WrapView {
        last_break: if space {
            Some(v.next + 1)
        } else {
            w.last_break
        },
        next: v.next + 1,
        ..w
    }
}

/// All lines, once there are no more clusters.
pub open spec fn all_lines(v: WrapView) -> Seq<(int, int)> {
    v.lines.push((v.start, v.next))
}

/// The lines so far follow each other from the first cluster on, and none
/// of them is empty.
pub open spec fn in_line(v: WrapView) -> bool {
    &&& 0 <= v.start <= v.next
    &&& v.lines.len() > 0 ==> v.lines[0].0 == 0 && v.lines.last().1 == v.start
    &&& v.lines.len() == 0 ==> v.start == 0
    &&& forall|i: int| 0 <= i < v.lines.len() ==> (#[trigger] v.lines[i]).0 < v.lines[i].1
    &&& forall|i: int, j: int|
        0 <= i && j == i + 1 && j < v.lines.len() ==> (#[trigger] v.lines[i]).1 == (
        #[trigger] v.lines[j]).0
    &&& v.last_break matches Some(b) ==> 0 <= b <= v.next
}

/// Taking a cluster in keeps the lines in line.
proof fn lemma_stepped(v: WrapView, space: bool, over: bool)
    requires
        in_line(v),
    ensures
        in_line(stepped(v, space, over)),
{
    let w = stepped(v, space, over);
    if breaks(v, space, over) {
        assert(w.lines == v.lines.push((v.start, break_at(v))));
        assert forall|i: int, j: int| 0 <= i && j == i + 1 && j < w.lines.len() implies (
        #[trigger] w.lines[i]).1 == (#[trigger] w.lines[j]).0 by {
            if j < v.lines.len() {
                assert(v.lines[i].1 == v.lines[j].0);
            }
        }
    }
}

impl Wrap {
    /// The invariant: the lines follow each other.
    pub closed spec fn wf(&self) -> bool {
        in_line(self@)
    }

    /// Nothing taken in yet.
    pub fn new() -> (w: Wrap)
        ensures
            w.wf(),
            w@ == (WrapView { lines: Seq::empty(), start: 0, last_break: None, next: 0 }),
    {
        let w = Wrap { lines: Vec::new(), start: 0, last_break: None, next: 0 };
        assert(w@.lines =~= Seq::<(int, int)>::empty());
        w
    }

    /// Take the next cluster in: whether it is white space, and whether it
    /// would run over the limit where the pen is. Where that ends the line,
    /// what comes back is the cluster that the next line starts with: the
    /// pen is behind those from there up to this one then.
    pub fn step(&mut self, space: bool, over: bool) -> (start: Option<usize>)
        requires
            old(self).wf(),
            old(self)@.next < usize::MAX,
        ensures
            final(self).wf(),
            final(self)@ == stepped(old(self)@, space, over),
            match start {
                Some(b) => breaks(old(self)@, space, over) && b == break_at(old(self)@)
                    && final(self)@.start == b && final(self)@.lines == old(self)@.lines.push(
                    (old(self)@.start, b as int),
                ),
                None => !breaks(old(self)@, space, over) && final(self)@.start == old(self)@.start
                    && final(self)@.lines == old(self)@.lines,
            },
    {
        proof {
            lemma_stepped(self@, space, over);
        }
        let ghost before = self@.lines;
        let mut r: Option<usize> = None;
        if !space && over && self.next > self.start {
            let b: usize = match self.last_break {
                Some(b) => if b > self.start {
                    b
                } else {
                    self.next
                },
                None => self.next,
            };
            self.lines.push(self.start..b);
            assert(spans(self.lines@) =~= before.push((self.start as int, b as int)));
            self.start = b;
            self.last_break = None;
            r = Some(b);
        }
        self.next = self.next + 1;
        if space {
            self.last_break = Some(self.next);
        }
        r
    }

    /// The clusters of each line.
    pub fn finish(self) -> (lines: Vec<Range<usize>>)
        requires
            self.wf(),
        ensures
            spans(lines@) == all_lines(self@),
    {
        let ghost v = self@;
        let mut lines = self.lines;
        lines.push(self.start..self.next);
        assert(spans(lines@) =~= all_lines(v));
        lines
    }
}

/// The clusters of a text that is not wrapped: one line of them all.
pub fn one_line(clusters: usize) -> (lines: Vec<Range<usize>>)
    ensures
        spans(lines@) == seq![(0int, clusters as int)],
{
    let mut lines: Vec<Range<usize>> = Vec::new();
    lines.push(0..clusters);
    assert(spans(lines@) =~= seq![(0int, clusters as int)]);
    lines
}

/// A text taken in from the start: for each cluster whether it is white
/// space, and whether it would run over.
pub open spec fn wrapped(clusters: Seq<(bool, bool)>) -> WrapView
    decreases clusters.len(),
{
    if clusters.len() == 0 {
        WrapView { lines: Seq::empty(), start: 0, last_break: None, next: 0 }
    } else {
        stepped(wrapped(clusters.drop_last()), clusters.last().0, clusters.last().1)
    }
}

proof fn lemma_wrapped(clusters: Seq<(bool, bool)>)
    ensures
        in_line(wrapped(clusters)),
        wrapped(clusters).next == clusters.len(),
    decreases clusters.len(),
{
    if clusters.len() > 0 {
        lemma_wrapped(clusters.drop_last());
        lemma_stepped(wrapped(clusters.drop_last()), clusters.last().0, clusters.last().1);
    }
}

/// Wrapping loses no cluster and repeats none: the lines follow each other
/// from the first cluster to the last, and only the last of them can be
/// empty, where there is no cluster at all.
pub proof fn lines_cover_the_text(clusters: Seq<(bool, bool)>)
    ensures
        ({
            let lines = all_lines(wrapped(clusters));
            let n = clusters.len();
            &&& lines[0].0 == 0
            &&& lines.last().1 == n
            &&& forall|i: int, j: int|
                0 <= i && j == i + 1 && j < lines.len() ==> (#[trigger] lines[i]).1 == (
                #[trigger] lines[j]).0
            &&& forall|i: int|
                0 <= i < lines.len() && n > 0 ==> (#[trigger] lines[i]).0 < lines[i].1
        }),
{
    lemma_wrapped(clusters);
    let v = wrapped(clusters);
    let lines = all_lines(v);
    assert forall|i: int, j: int| 0 <= i && j == i + 1 && j < lines.len() implies (
    #[trigger] lines[i]).1 == (#[trigger] lines[j]).0 by {
        if j < v.lines.len() {
            assert(v.lines[i].1 == v.lines[j].0);
        }
    }
    if clusters.len() > 0 {
        lemma_last_line(clusters);
    }
}

/// The line that is not complete holds at least the last cluster.
proof fn lemma_last_line(clusters: Seq<(bool, bool)>)
    requires
        clusters.len() > 0,
    ensures
        wrapped(clusters).start < wrapped(clusters).next,
{
    lemma_wrapped(clusters.drop_last());
}

/// Whether there is no white space from one cluster up to another.
pub open spec fn no_space(clusters: Seq<(bool, bool)>, from: int, to: int) -> bool {
    forall|i: int| from <= i < to ==> !(#[trigger] clusters[i]).0
}

/// Whether a line that is complete ends as it should before cluster `x`,
/// which is not white space and runs over: behind the last white space, or
/// right before `x` where the line has none.
pub open spec fn ends_before(clusters: Seq<(bool, bool)>, s: int, e: int, x: int) -> bool {
    &&& s < e <= x < clusters.len()
    &&& clusters[x].1 && !clusters[x].0
    &&& no_space(clusters, e, x)
    &&& clusters[e - 1].0 || (e == x && no_space(clusters, s, e))
}

spec fn ends_well(clusters: Seq<(bool, bool)>, line: (int, int)) -> bool {
    exists|x: int| ends_before(clusters, line.0, line.1, x)
}

/// What is known of a text of which some clusters were taken in.
spec fn laid_out(clusters: Seq<(bool, bool)>, v: WrapView) -> bool {
    &&& v.next == clusters.len()
    &&& forall|i: int| 0 <= i < v.lines.len() ==> ends_well(clusters, #[trigger] v.lines[i])
    &&& match v.last_break {
        Some(b) => v.start < b <= v.next && clusters[b - 1].0 && no_space(clusters, b, v.next),
        None => no_space(clusters, v.start, v.next),
    }
}

/// White space stays where it is when a cluster is added.
proof fn lemma_no_space(clusters: Seq<(bool, bool)>, from: int, to: int)
    requires
        clusters.len() > 0,
        0 <= from,
        to < clusters.len(),
    ensures
        no_space(clusters.drop_last(), from, to) == no_space(clusters, from, to),
{
    let head = clusters.drop_last();
    assert(forall|i: int| from <= i < to ==> #[trigger] head[i] == clusters[i]);
    if no_space(head, from, to) {
        assert forall|i: int| from <= i < to implies !(#[trigger] clusters[i]).0 by {
            assert(head[i] == clusters[i]);
        }
    }
}

proof fn lemma_laid_out(clusters: Seq<(bool, bool)>)
    ensures
        laid_out(clusters, wrapped(clusters)),
    decreases clusters.len(),
{
    if clusters.len() > 0 {
        let head = clusters.drop_last();
        let n = head.len() as int;
        let v = wrapped(head);
        let w = wrapped(clusters);
        lemma_wrapped(head);
        lemma_laid_out(head);
        lemma_no_space(clusters, v.start, n);
        if let Some(b) = v.last_break {
            lemma_no_space(clusters, b, n);
            assert(head[b - 1] == clusters[b - 1]);
        }
        assert forall|i: int| 0 <= i < w.lines.len() implies ends_well(
            clusters,
            #[trigger] w.lines[i],
        ) by {
            if i < v.lines.len() {
                let (s, e) = v.lines[i];
                assert(w.lines[i] == v.lines[i]);
                lemma_starts(v, i);
                let x = choose|x: int| ends_before(head, v.lines[i].0, v.lines[i].1, x);
                assert(head[x] == clusters[x]);
                assert(head[e - 1] == clusters[e - 1]);
                lemma_no_space(clusters, e, x);
                lemma_no_space(clusters, s, e);
                assert(ends_before(clusters, w.lines[i].0, w.lines[i].1, x));
            } else {
                assert(ends_before(clusters, w.lines[i].0, w.lines[i].1, n));
            }
        }
        assert(clusters[n] == clusters.last());
    }
}

/// Words are cut only where a line has no space to break at. A line ends
/// because a later cluster runs over, and it ends behind the last white
/// space before that cluster; only where the line has no white space at all
/// does it end right before the cluster.
pub proof fn words_are_cut_only_where_a_line_has_no_space(clusters: Seq<(bool, bool)>, i: int)
    requires
        0 <= i < all_lines(wrapped(clusters)).len() - 1,
    ensures
        ({
            let (s, e) = all_lines(wrapped(clusters))[i];
            &&& 0 <= s < e < clusters.len()
            &&& clusters[e - 1].0 || forall|k: int| s <= k < e ==> !(#[trigger] clusters[k]).0
            &&& exists|x: int|
                {
                    &&& e <= x < clusters.len()
                    &&& (#[trigger] clusters[x]).1 && !clusters[x].0
                    &&& forall|k: int| e <= k < x ==> !(#[trigger] clusters[k]).0
                    &&& clusters[e - 1].0 || e == x
                }
        }),
{
    lemma_wrapped(clusters);
    lemma_laid_out(clusters);
    let v = wrapped(clusters);
    assert(all_lines(v)[i] == v.lines[i]);
    lemma_starts(v, i);
    assert(ends_well(clusters, v.lines[i]));
    let x = choose|x: int| ends_before(clusters, v.lines[i].0, v.lines[i].1, x);
    assert(ends_before(clusters, v.lines[i].0, v.lines[i].1, x));
    assert(clusters[x].1);
}

/// No line starts before the first cluster.
proof fn lemma_starts(v: WrapView, i: int)
    requires
        in_line(v),
        0 <= i < v.lines.len(),
    ensures
        0 <= v.lines[i].0,
    decreases i,
{
    if i > 0 {
        lemma_starts(v, i - 1);
        assert(v.lines[i - 1].1 == v.lines[i].0);
    }
}

/// Whether every cluster below `n` that ran over and is no white space has
/// its place: of the line it is on, nothing before it is white space, and
/// that line starts with it, with the text, or behind white space.
spec fn placed(clusters: Seq<(bool, bool)>, lines: Seq<(int, int)>, n: int) -> bool {
    forall|k: int, x: int|
        0 <= k < lines.len() && (#[trigger] lines[k]).0 <= x < lines[k].1 && x < n && (
        #[trigger] clusters[x]).1 && !clusters[x].0 ==> {
            &&& no_space(clusters, lines[k].0, x)
            &&& lines[k].0 == x || (lines[k].0 > 0 && clusters[lines[k].0 - 1].0)
        }
}

proof fn lemma_placed(clusters: Seq<(bool, bool)>)
    ensures
        placed(clusters, all_lines(wrapped(clusters)), clusters.len() as int),
    decreases clusters.len(),
{
    if clusters.len() > 0 {
        let head = clusters.drop_last();
        let n = head.len() as int;
        let v = wrapped(head);
        let w = wrapped(clusters);
        lemma_wrapped(head);
        lemma_wrapped(clusters);
        lemma_laid_out(head);
        lemma_placed(head);
        let before = all_lines(v);
        let after = all_lines(w);
        let j = v.lines.len() as int;
        assert(before[j] == (v.start, v.next));
        assert forall|k: int, x: int|
            0 <= k < after.len() && (#[trigger] after[k]).0 <= x < after[k].1 && x < n + 1 && (
            #[trigger] clusters[x]).1 && !clusters[x].0 implies no_space(clusters, after[k].0, x)
            && (after[k].0 == x || (after[k].0 > 0 && clusters[after[k].0 - 1].0)) by {
            if k < w.lines.len() {
                lemma_starts(w, k);
            }
            let s = after[k].0;
            if x < n && k <= j {
                // on a line that was there before
                assert(head[x] == clusters[x]);
                if k < j {
                    assert(after[k] == before[k]);
                    lemma_wrapped_end(v, k);
                }
                assert(before[k].0 == s && x < before[k].1);
                assert(no_space(head, s, x));
                lemma_no_space(clusters, s, x);
                if s != x {
                    assert(head[s - 1] == clusters[s - 1]);
                }
            } else if x < n {
                // moved to the new line together with what ran over
                assert(head[x] == clusters[x]);
                assert(s == break_at(v) && v.start < s);
                let b = v.last_break->0;
                lemma_no_space(clusters, b, n);
                assert(head[b - 1] == clusters[b - 1]);
            } else if breaks(v, clusters[x].0, clusters[x].1) {
                if let Some(b) = v.last_break {
                    lemma_no_space(clusters, b, n);
                    assert(head[b - 1] == clusters[b - 1]);
                }
            }
        }
    }
}

/// No complete line reaches into the one that is not.
proof fn lemma_wrapped_end(v: WrapView, i: int)
    requires
        in_line(v),
        0 <= i < v.lines.len(),
    ensures
        v.lines[i].1 <= v.start,
    decreases v.lines.len() - i,
{
    if i + 1 < v.lines.len() {
        lemma_wrapped_end(v, i + 1);
        assert(v.lines[i].1 == v.lines[i + 1].0);
    }
}

/// What runs over starts a line, or stands in the word that does: a cluster
/// that is no white space and would run over has no white space before it on
/// its line, so that its word is the only thing that could be too wide. And
/// white space never starts a line for being too wide, as
/// [`words_are_cut_only_where_a_line_has_no_space`] says.
pub proof fn what_runs_over_is_moved_to_a_line_of_its_own(
    clusters: Seq<(bool, bool)>,
    k: int,
    x: int,
)
    requires
        0 <= k < all_lines(wrapped(clusters)).len(),
        all_lines(wrapped(clusters))[k].0 <= x < all_lines(wrapped(clusters))[k].1,
        clusters[x].1,
        !clusters[x].0,
    ensures
        ({
            let s = all_lines(wrapped(clusters))[k].0;
            &&& forall|i: int| s <= i < x ==> !(#[trigger] clusters[i]).0
            &&& s == x || (s > 0 && clusters[s - 1].0)
        }),
{
    lemma_wrapped(clusters);
    lemma_placed(clusters);
    let v = wrapped(clusters);
    if k < v.lines.len() {
        lemma_wrapped_end(v, k);
    }
    assert(x < clusters.len());
    let lines = all_lines(v);
    assert(lines[k].0 <= x < lines[k].1 && clusters[x].1);
}

/// The script of a text is that of its first character that has one of its
/// own: no character before it has one. Where no character has one, it is
/// Latin.
pub proof fn the_first_strong_character_decides(scripts: Seq<Seq<char>>)
    ensures
        (forall|i: int| 0 <= i < scripts.len() ==> !is_strong(#[trigger] scripts[i]))
            ==> main_script(scripts) == "Latin"@,
        forall|k: int|
            0 <= k < scripts.len() && is_strong(#[trigger] scripts[k]) && (forall|i: int|
                0 <= i < k ==> !is_strong(#[trigger] scripts[i])) ==> main_script(scripts)
                == scripts[k],
    decreases scripts.len(),
{
    if scripts.len() > 0 && !is_strong(scripts[0]) {
        let rest = scripts.drop_first();
        the_first_strong_character_decides(rest);
        assert forall|k: int|
            0 <= k < scripts.len() && is_strong(#[trigger] scripts[k]) && (forall|i: int|
                0 <= i < k ==> !is_strong(#[trigger] scripts[i])) implies main_script(scripts)
            == scripts[k] by {
            assert(rest[k - 1] == scripts[k]);
            assert(forall|i: int| 0 <= i < k - 1 ==> rest[i] == scripts[i + 1]);
        }
        if forall|i: int| 0 <= i < scripts.len() ==> !is_strong(#[trigger] scripts[i]) {
            assert(forall|i: int| 0 <= i < rest.len() ==> rest[i] == scripts[i + 1]);
        }
    }
}

// ---------------------------------------------------------------------
// what of a line has ink
// ---------------------------------------------------------------------

/// One past the last cluster that is not white space: what the width of a
/// line is measured up to, so that the space it broke at does not count.
pub open spec fn inked(spaces: Seq<bool>) -> nat
    decreases spaces.len(),
{
    if spaces.len() == 0 {
        0
    } else if spaces.last() {
        inked(spaces.drop_last())
    } else {
        spaces.len()
    }
}

/// The width of a line ends with ink: what is behind its end is white space,
/// and what it ends with is not.
pub proof fn a_line_ends_with_its_ink(spaces: Seq<bool>)
    ensures
        inked(spaces) <= spaces.len(),
        forall|i: int| inked(spaces) <= i < spaces.len() ==> #[trigger] spaces[i],
        inked(spaces) > 0 ==> !spaces[inked(spaces) - 1],
    decreases spaces.len(),
{
    if spaces.len() > 0 && spaces.last() {
        a_line_ends_with_its_ink(spaces.drop_last());
        assert(forall|i: int| 0 <= i < spaces.len() - 1 ==> spaces.drop_last()[i] == spaces[i]);
    }
}

/// One past the last cluster of a line that is not white space.
pub fn ink_end(spaces: &[bool]) -> (n: usize)
    ensures
        n == inked(spaces@),
{
    let mut n: usize = spaces.len();
    assert(spaces@.take(n as int) =~= spaces@);
    while n > 0 && spaces[n - 1]
        invariant
            n <= spaces@.len(),
            inked(spaces@) == inked(spaces@.take(n as int)),
        decreases n,
    {
        assert(spaces@.take(n as int).drop_last() =~= spaces@.take(n - 1));
        n -= 1;
    }
    n
}

/// A script says nothing of a text where it is the common, the inherited or
/// the unknown one; every other does.
pub proof fn three_scripts_say_nothing(script: Seq<char>)
    ensures
        !is_strong(script) <==> {
            ||| script == "Common"@
            ||| script == "Inherited"@
            ||| script == "Unknown"@
        },
{
}

} // verus!
