//! The duplicate-block finder: window search over non-empty lines, from the
//! largest window to the smallest, with greedy claiming of physical lines.
use crate::text::{
    all_ws, chars_of, is_white, is_ws, lemma_trim_end_prefix, lemma_trim_start_suffix, lines_of,
    normalize, normalize_line, split_lines, strip_spaces, texts_view, trim_end, trim_start,
};
use itertools::Itertools;
use vstd::prelude::*;

verus! {

/// One non-empty line: its normalized key and its 0-based physical index.
pub struct Line {
    pub text: Vec<char>,
    pub nr: usize,
}

impl View for Line {
    type V = (Seq<char>, usize);

    open spec fn view(&self) -> (Seq<char>, usize) {
        (self.text@, self.nr)
    }
}

/// An occurrence: first and last physical line index, both inclusive.
pub type Span = (usize, usize);

/// The model of a line sequence: key and physical index of each line.
pub open spec fn lines_view(v: Seq<Line>) -> Seq<(Seq<char>, usize)> {
    v.map_values(|l: Line| l@)
}

/// The model of a list of groups.
pub open spec fn groups_view(v: Seq<Vec<Span>>) -> Seq<Seq<Span>> {
    v.map_values(|g: Vec<Span>| g@)
}

/// Lines fit for the finder: physical indices strictly increase and stay
/// below the number of physical lines.
pub open spec fn wf_lines(ls: Seq<(Seq<char>, usize)>, total: nat) -> bool {
    &&& forall|i: int| 0 <= i < ls.len() ==> (#[trigger] ls[i]).1 < total
    &&& forall|i: int, j: int| 0 <= i < j < ls.len() ==> (#[trigger] ls[i]).1 < (#[trigger] ls[j]).1
}

/// Two runs of lines of equal length with equal keys, position by position.
pub open spec fn same_texts(a: Seq<(Seq<char>, usize)>, b: Seq<(Seq<char>, usize)>) -> bool {
    forall|k: int| 0 <= k < a.len() ==> (#[trigger] a[k]).0 == b[k].0
}

/// The window of `w` lines at `j` holds the same keys as the one at `p`.
pub open spec fn same_window(ls: Seq<(Seq<char>, usize)>, j: int, p: int, w: int) -> bool {
    same_texts(ls.subrange(j, j + w), ls.subrange(p, p + w))
}

/// The span of the window of `w` lines at `j`.
pub open spec fn span_of(ls: Seq<(Seq<char>, usize)>, j: int, w: int) -> Span {
    (ls[j].1, ls[j + w - 1].1)
}

/// Spans of the windows among the first `j` positions that match the window at `p`.
pub open spec fn matching_spans(ls: Seq<(Seq<char>, usize)>, p: int, w: int, j: int) -> Seq<Span>
    decreases j,
{
    if j <= 0 {
        Seq::<Span>::empty()
    } else {
        let r = matching_spans(ls, p, w, j - 1);
        if same_window(ls, j - 1, p, w) {
            r.push(span_of(ls, j - 1, w))
        } else {
            r
        }
    }
}

/// Merging rule for two successive spans: the second is absorbed by the
/// first, which stays as it is, when it starts no later than the first ends.
pub open spec fn merge_rule(x: Span, y: Span) -> Result<Span, (Span, Span)> {
    if x.1 < y.0 {
        Err((x, y))
    } else {
        Ok(x)
    }
}

/// Spans after coalescing: each span is offered to the rule together with the
/// pending one; `Ok` replaces the pending span, `Err` emits it and makes the
/// new one pending.
pub open spec fn coalesced(s: Seq<Span>) -> Seq<Span>
    decreases s.len(),
{
    if s.len() == 0 {
        s
    } else {
        let r = coalesced(s.drop_last());
        if r.len() == 0 {
            seq![s.last()]
        } else {
            match merge_rule(r.last(), s.last()) {
                Ok(m) => r.update(r.len() - 1, m),
                Err((a, b)) => r.update(r.len() - 1, a).push(b),
            }
        }
    }
}

/// A character of structural punctuation: whitespace or a brace.
pub open spec fn is_punct(c: char) -> bool {
    is_ws(c) || c == '{' || c == '}'
}

/// Every character of every line is whitespace or a brace.
pub open spec fn all_punct(ls: Seq<(Seq<char>, usize)>) -> bool {
    forall|k: int, c: int| 0 <= k < ls.len() && 0 <= c < ls[k].0.len() ==> is_punct(#[trigger] ls[k].0[c])
}

/// Physical line `i` lies in some span of `g`.
pub open spec fn covers(g: Seq<Span>, i: int) -> bool {
    exists|k: int| 0 <= k < g.len() && (#[trigger] g[k]).0 <= i <= g[k].1
}

/// Some line of `g` is already claimed.
pub open spec fn conflicts(used: Seq<bool>, g: Seq<Span>) -> bool {
    exists|i: int| 0 <= i < used.len() && used[i] && #[trigger] covers(g, i)
}

/// The claimed lines after claiming every line of `g`.
pub open spec fn claim(used: Seq<bool>, g: Seq<Span>) -> Seq<bool> {
    Seq::new(used.len(), |i: int| used[i] || covers(g, i))
}

/// The occurrences of the window of `w` lines at `p`, after coalescing.
pub open spec fn candidate(ls: Seq<(Seq<char>, usize)>, p: int, w: int) -> Seq<Span> {
    coalesced(matching_spans(ls, p, w, ls.len() - w + 1))
}

/// The finder's state: claimed physical lines and the groups found so far.
pub type ScanState = (Seq<bool>, Seq<Seq<Span>>);

/// What the window of `w` lines at `p` does to the state.
pub open spec fn step(ls: Seq<(Seq<char>, usize)>, st: ScanState, w: int, p: int) -> ScanState {
    if st.0[ls[p].1 as int] || all_punct(ls.subrange(p, p + w)) {
        st
    } else {
        let g = candidate(ls, p, w);
        if g.len() < 2 || conflicts(st.0, g) {
            st
        } else {
            (claim(st.0, g), st.1.push(g))
        }
    }
}

/// The state after the windows of `w` lines at positions below `p`.
pub open spec fn scan_width(ls: Seq<(Seq<char>, usize)>, st: ScanState, w: int, p: int) -> ScanState
    decreases p,
{
    if p <= 0 {
        st
    } else {
        step(ls, scan_width(ls, st, w, p - 1), w, p - 1)
    }
}

/// The state after the `k` largest window lengths, starting from half the
/// number of lines.
pub open spec fn scan_widths(ls: Seq<(Seq<char>, usize)>, total: nat, k: nat) -> ScanState
    decreases k,
{
    if k == 0 {
        (Seq::new(total, |i: int| false), Seq::<Seq<Span>>::empty())
    } else {
        let w = ls.len() / 2 - (k - 1);
        scan_width(ls, scan_widths(ls, total, (k - 1) as nat), w, ls.len() - w + 1)
    }
}

/// The duplicate groups of a line sequence over `total` physical lines.
pub open spec fn greedy_groups(ls: Seq<(Seq<char>, usize)>, total: nat) -> Seq<Seq<Span>> {
    scan_widths(ls, total, ls.len() / 2).1
}

/// The non-empty lines among the first `k` keys, each with its physical index.
pub open spec fn keyed_lines(keys: Seq<Seq<char>>, k: int) -> Seq<(Seq<char>, usize)>
    decreases k,
{
    if k <= 0 {
        Seq::<(Seq<char>, usize)>::empty()
    } else {
        let r = keyed_lines(keys, k - 1);
        if all_ws(keys[k - 1]) {
            r
        } else {
            r.push((keys[k - 1], (k - 1) as usize))
        }
    }
}

/// The keys of all physical lines of a text.
pub open spec fn line_keys(s: Seq<char>) -> Seq<Seq<char>> {
    lines_of(s).map_values(|l: Seq<char>| normalize(l))
}

/// The non-empty lines of a text, keyed and numbered.
pub open spec fn document_lines(s: Seq<char>) -> Seq<(Seq<char>, usize)> {
    keyed_lines(line_keys(s), lines_of(s).len() as int)
}

/// The duplicate groups of a text.
pub open spec fn dup_groups(s: Seq<char>) -> Seq<Seq<Span>> {
    greedy_groups(document_lines(s), lines_of(s).len())
}

/// Any two distinct spans among all groups are disjoint intervals.
pub open spec fn spans_disjoint(gs: Seq<Seq<Span>>) -> bool {
    forall|a: int, k: int, b: int, l: int|
        0 <= a < gs.len() && 0 <= b < gs.len() && 0 <= k < gs[a].len() && 0 <= l < gs[b].len()
            && (a != b || k != l) ==> (#[trigger] gs[a][k]).1 < (#[trigger] gs[b][l]).0 || gs[b][l].1
            < gs[a][k].0
}

/// Every group holds at least two occurrences.
pub open spec fn groups_repeat(gs: Seq<Seq<Span>>) -> bool {
    forall|a: int| 0 <= a < gs.len() ==> (#[trigger] gs[a]).len() >= 2
}

/// Spans of one group: each well formed, below `total`, in increasing order
/// and apart from each other.
pub open spec fn sorted_spans(g: Seq<Span>, total: nat) -> bool {
    &&& forall|k: int| 0 <= k < g.len() ==> (#[trigger] g[k]).0 <= g[k].1 < total
    &&& forall|k: int, l: int| 0 <= k < l < g.len() ==> (#[trigger] g[k]).1 < (#[trigger] g[l]).0
}

/// What every state of the scan satisfies.
pub open spec fn valid_state(st: ScanState, total: nat) -> bool {
    &&& st.0.len() == total
    &&& groups_repeat(st.1)
    &&& forall|a: int| 0 <= a < st.1.len() ==> sorted_spans(#[trigger] st.1[a], total)
    &&& forall|a: int, i: int| 0 <= a < st.1.len() && #[trigger] covers(st.1[a], i) ==> st.0[i]
    &&& forall|a: int, b: int, i: int|
        0 <= a < b < st.1.len() ==> !(covers(#[trigger] st.1[a], i) && #[trigger] covers(st.1[b], i))
}

proof fn lemma_step_valid(ls: Seq<(Seq<char>, usize)>, st: ScanState, total: nat, w: int, p: int)
    requires
        wf_lines(ls, total),
        valid_state(st, total),
        1 <= w,
        0 <= p,
        p + w <= ls.len(),
    ensures
        valid_state(step(ls, st, w, p), total),
{
    if !(st.0[ls[p].1 as int] || all_punct(ls.subrange(p, p + w))) {
        let g = candidate(ls, p, w);
        if !(g.len() < 2 || conflicts(st.0, g)) {
            lemma_matching_bounds(ls, total, p, w, ls.len() - w + 1);
            lemma_coalesced_sorted(matching_spans(ls, p, w, ls.len() - w + 1), total);
            let gs = st.1.push(g);
            let used = claim(st.0, g);
            assert(gs[gs.len() - 1] == g);
            assert forall|a: int| 0 <= a < gs.len() implies sorted_spans(#[trigger] gs[a], total) by {
                if a < st.1.len() {
                    assert(gs[a] == st.1[a]);
                }
            }
            assert forall|a: int, i: int| 0 <= a < gs.len() && #[trigger] covers(gs[a], i) implies used[i] by {
                let k = choose|k: int| 0 <= k < gs[a].len() && (#[trigger] gs[a][k]).0 <= i <= gs[a][k].1;
                assert(sorted_spans(gs[a], total));
                if a < st.1.len() {
                    assert(gs[a] == st.1[a]);
                }
            }
            assert forall|a: int, b: int, i: int|
                0 <= a < b < gs.len() implies !(covers(#[trigger] gs[a], i) && #[trigger] covers(gs[b], i)) by {
                assert(gs[a] == st.1[a]);
                if b < st.1.len() {
                    assert(gs[b] == st.1[b]);
                } else if covers(gs[a], i) && covers(gs[b], i) {
                    let k = choose|k: int| 0 <= k < g.len() && (#[trigger] g[k]).0 <= i <= g[k].1;
                    assert(0 <= i < st.0.len() && st.0[i] && covers(g, i));
                }
            }
        }
    }
}

proof fn lemma_scan_width_valid(ls: Seq<(Seq<char>, usize)>, st: ScanState, total: nat, w: int, p: int)
    requires
        wf_lines(ls, total),
        valid_state(st, total),
        1 <= w,
        0 <= p <= ls.len() - w + 1,
    ensures
        valid_state(scan_width(ls, st, w, p), total),
    decreases p,
{
    if p > 0 {
        lemma_scan_width_valid(ls, st, total, w, p - 1);
        lemma_step_valid(ls, scan_width(ls, st, w, p - 1), total, w, p - 1);
    }
}

proof fn lemma_scan_widths_valid(ls: Seq<(Seq<char>, usize)>, total: nat, k: nat)
    requires
        wf_lines(ls, total),
        k <= ls.len() / 2,
    ensures
        valid_state(scan_widths(ls, total, k), total),
    decreases k,
{
    if k == 0 {
        let st = scan_widths(ls, total, k);
        assert forall|a: int, i: int| 0 <= a < st.1.len() && #[trigger] covers(st.1[a], i) implies st.0[i] by {}
    } else {
        lemma_scan_widths_valid(ls, total, (k - 1) as nat);
        let w = ls.len() / 2 - (k - 1);
        lemma_scan_width_valid(ls, scan_widths(ls, total, (k - 1) as nat), total, w, ls.len() - w + 1);
    }
}

proof fn lemma_valid_disjoint(st: ScanState, total: nat)
    requires
        valid_state(st, total),
    ensures
        spans_disjoint(st.1),
        groups_repeat(st.1),
{
    let gs = st.1;
    assert forall|a: int, k: int, b: int, l: int|
        0 <= a < gs.len() && 0 <= b < gs.len() && 0 <= k < gs[a].len() && 0 <= l < gs[b].len()
            && (a != b || k != l) implies (#[trigger] gs[a][k]).1 < (#[trigger] gs[b][l]).0
            || gs[b][l].1 < gs[a][k].0 by {
        assert(sorted_spans(gs[a], total));
        assert(sorted_spans(gs[b], total));
        if a != b && !(gs[a][k].1 < gs[b][l].0 || gs[b][l].1 < gs[a][k].0) {
            let i: int = if gs[a][k].0 < gs[b][l].0 { gs[b][l].0 as int } else { gs[a][k].0 as int };
            assert(covers(gs[a], i));
            assert(covers(gs[b], i));
            if a < b {
                assert(!(covers(gs[a], i) && covers(gs[b], i)));
            } else {
                assert(!(covers(gs[b], i) && covers(gs[a], i)));
            }
        }
    }
}

/// The groups found in any line sequence never share a physical line, and
/// each of them holds at least two occurrences.
pub proof fn lemma_greedy_groups_disjoint(ls: Seq<(Seq<char>, usize)>, total: nat)
    requires
        wf_lines(ls, total),
    ensures
        spans_disjoint(greedy_groups(ls, total)),
        groups_repeat(greedy_groups(ls, total)),
{
    lemma_scan_widths_valid(ls, total, ls.len() / 2);
    lemma_valid_disjoint(scan_widths(ls, total, ls.len() / 2), total);
}

proof fn lemma_keyed_wf(keys: Seq<Seq<char>>, k: int)
    requires
        0 <= k <= keys.len(),
        k <= usize::MAX,
    ensures
        wf_lines(keyed_lines(keys, k), k as nat),
    decreases k,
{
    if k > 0 {
        lemma_keyed_wf(keys, k - 1);
        let r = keyed_lines(keys, k - 1);
        if !all_ws(keys[k - 1]) {
            let t = r.push((keys[k - 1], (k - 1) as usize));
            assert forall|i: int, j: int| 0 <= i < j < t.len() implies (#[trigger] t[i]).1 < (#[trigger] t[j]).1 by {
                if j < r.len() {
                    assert(t[i] == r[i] && t[j] == r[j]);
                } else {
                    assert(t[i] == r[i]);
                    assert(r[i].1 < k - 1);
                }
            }
            assert forall|i: int| 0 <= i < t.len() implies (#[trigger] t[i]).1 < k by {
                if i < r.len() {
                    assert(t[i] == r[i]);
                }
            }
        }
    }
}

/// The groups found in a text never share a physical line, and each of them
/// holds at least two occurrences.
pub proof fn lemma_dup_groups_disjoint(s: Seq<char>)
    requires
        lines_of(s).len() <= usize::MAX,
    ensures
        spans_disjoint(dup_groups(s)),
        groups_repeat(dup_groups(s)),
{
    lemma_keyed_wf(line_keys(s), lines_of(s).len() as int);
    lemma_greedy_groups_disjoint(document_lines(s), lines_of(s).len());
}

/// Every character of the text is whitespace or a brace.
pub open spec fn punct_text(s: Seq<char>) -> bool {
    forall|k: int| 0 <= k < s.len() ==> is_punct(#[trigger] s[k])
}

proof fn lemma_lines_punct(s: Seq<char>)
    requires
        punct_text(s),
    ensures
        lines_of(s).len() >= 1,
        forall|i: int| 0 <= i < lines_of(s).len() ==> punct_text(#[trigger] lines_of(s)[i]),
    decreases s.len(),
{
    if s.len() == 0 {
        assert(punct_text(lines_of(s)[0]));
    } else {
        let t = s.drop_last();
        assert(punct_text(t)) by {
            assert forall|k: int| 0 <= k < t.len() implies is_punct(#[trigger] t[k]) by {
                assert(t[k] == s[k]);
            }
        }
        lemma_lines_punct(t);
        let prev = lines_of(t);
        if s.last() != '\n' {
            let l = prev.last().push(s.last());
            assert(punct_text(prev[prev.len() - 1]));
            assert(is_punct(s[s.len() - 1]));
            assert forall|k: int| 0 <= k < l.len() implies is_punct(#[trigger] l[k]) by {
                if k < l.len() - 1 {
                    assert(l[k] == prev.last()[k]);
                }
            }
            let u = prev.update(prev.len() - 1, l);
            assert forall|i: int| 0 <= i < u.len() implies punct_text(#[trigger] u[i]) by {
                if i < u.len() - 1 {
                    assert(u[i] == prev[i]);
                }
            }
        } else {
            let u = prev.push(Seq::<char>::empty());
            assert forall|i: int| 0 <= i < u.len() implies punct_text(#[trigger] u[i]) by {
                if i < u.len() - 1 {
                    assert(u[i] == prev[i]);
                }
            }
        }
    }
}

proof fn lemma_strip_punct(s: Seq<char>)
    requires
        punct_text(s),
    ensures
        punct_text(strip_spaces(s)),
    decreases s.len(),
{
    if s.len() > 0 {
        let t = s.drop_last();
        assert(punct_text(t)) by {
            assert forall|k: int| 0 <= k < t.len() implies is_punct(#[trigger] t[k]) by {
                assert(t[k] == s[k]);
            }
        }
        lemma_strip_punct(t);
        let r = strip_spaces(t);
        if s.last() != ' ' {
            assert forall|k: int| 0 <= k < r.push(s.last()).len() implies is_punct(#[trigger] r.push(s.last())[k]) by {
                if k < r.len() {
                    assert(r.push(s.last())[k] == r[k]);
                }
            }
        }
    }
}

proof fn lemma_normalize_punct(s: Seq<char>)
    requires
        punct_text(s),
    ensures
        punct_text(normalize(s)),
{
    lemma_trim_start_suffix(s);
    let t = trim_start(s);
    assert forall|k: int| 0 <= k < t.len() implies is_punct(#[trigger] t[k]) by {
        assert(t[k] == s[k + s.len() - t.len()]);
    }
    lemma_trim_end_prefix(t);
    let u = trim_end(t);
    assert forall|k: int| 0 <= k < u.len() implies is_punct(#[trigger] u[k]) by {
        assert(u[k] == t[k]);
    }
    lemma_strip_punct(u);
}

proof fn lemma_keyed_punct(keys: Seq<Seq<char>>, k: int)
    requires
        0 <= k <= keys.len(),
        forall|i: int| 0 <= i < keys.len() ==> punct_text(#[trigger] keys[i]),
    ensures
        all_punct(keyed_lines(keys, k)),
    decreases k,
{
    if k > 0 {
        lemma_keyed_punct(keys, k - 1);
        let r = keyed_lines(keys, k - 1);
        if !all_ws(keys[k - 1]) {
            let t = r.push((keys[k - 1], (k - 1) as usize));
            assert(punct_text(keys[k - 1]));
            assert forall|a: int, c: int| 0 <= a < t.len() && 0 <= c < t[a].0.len() implies is_punct(#[trigger] t[a].0[c]) by {
                if a < r.len() {
                    assert(t[a] == r[a]);
                }
            }
        }
    }
}

proof fn lemma_scan_width_punct(ls: Seq<(Seq<char>, usize)>, st: ScanState, w: int, p: int)
    requires
        all_punct(ls),
        1 <= w,
        0 <= p <= ls.len() - w + 1,
    ensures
        scan_width(ls, st, w, p) == st,
    decreases p,
{
    if p > 0 {
        lemma_scan_width_punct(ls, st, w, p - 1);
        let win = ls.subrange(p - 1, p - 1 + w);
        assert forall|a: int, c: int| 0 <= a < win.len() && 0 <= c < win[a].0.len() implies is_punct(#[trigger] win[a].0[c]) by {
            assert(win[a] == ls[p - 1 + a]);
        }
    }
}

proof fn lemma_scan_widths_punct(ls: Seq<(Seq<char>, usize)>, total: nat, k: nat)
    requires
        all_punct(ls),
        k <= ls.len() / 2,
    ensures
        scan_widths(ls, total, k).1.len() == 0,
    decreases k,
{
    if k > 0 {
        lemma_scan_widths_punct(ls, total, (k - 1) as nat);
        let w = ls.len() / 2 - (k - 1);
        lemma_scan_width_punct(ls, scan_widths(ls, total, (k - 1) as nat), w, ls.len() - w + 1);
    }
}

/// A text made of nothing but braces and whitespace has no duplicate groups,
/// however often its lines repeat.
pub proof fn lemma_braces_ignored(s: Seq<char>)
    requires
        punct_text(s),
    ensures
        dup_groups(s).len() == 0,
{
    lemma_lines_punct(s);
    let keys = line_keys(s);
    assert forall|i: int| 0 <= i < keys.len() implies punct_text(#[trigger] keys[i]) by {
        lemma_normalize_punct(lines_of(s)[i]);
    }
    lemma_keyed_punct(keys, keys.len() as int);
    lemma_scan_widths_punct(document_lines(s), lines_of(s).len(), document_lines(s).len() / 2);
}

impl Line {
    /// The line holds nothing but whitespace.
    pub fn empty_line(&self) -> (r: bool)
        ensures
            r == all_ws(self.text@),
    {
        let mut k: usize = 0;
        while k < self.text.len()
            invariant
                k <= self.text@.len(),
                forall|m: int| 0 <= m < k ==> is_ws(#[trigger] self.text@[m]),
            decreases self.text@.len() - k,
        {
            if !is_white(self.text[k]) {
                return false;
            }
            k = k + 1;
        }
        true
    }

    /// The two lines have the same key.
    pub fn eq_txt(&self, other: &Self) -> (r: bool)
        ensures
            r == (self.text@ == other.text@),
    {
        if self.text.len() != other.text.len() {
            return false;
        }
        let mut k: usize = 0;
        while k < self.text.len()
            invariant
                k <= self.text@.len(),
                self.text@.len() == other.text@.len(),
                forall|m: int| 0 <= m < k ==> self.text@[m] == other.text@[m],
            decreases self.text@.len() - k,
        {
            if self.text[k] != other.text[k] {
                return false;
            }
            k = k + 1;
        }
        assert(self.text@ =~= other.text@);
        true
    }
}

/// Every character of the pattern is whitespace or a brace.
pub fn only_braces(pattern: &[Line]) -> (r: bool)
    ensures
        r == all_punct(lines_view(pattern@)),
{
    let ghost ls = lines_view(pattern@);
    let mut k: usize = 0;
    while k < pattern.len()
        invariant
            k <= pattern@.len(),
            ls == lines_view(pattern@),
            forall|a: int, c: int| 0 <= a < k && 0 <= c < ls[a].0.len() ==> is_punct(#[trigger] ls[a].0[c]),
        decreases pattern@.len() - k,
    {
        let text = &pattern[k].text;
        let mut c: usize = 0;
        while c < text.len()
            invariant
                k < pattern@.len(),
                ls == lines_view(pattern@),
                text@ == ls[k as int].0,
                c <= text@.len(),
                forall|a: int, b: int| 0 <= a < k && 0 <= b < ls[a].0.len() ==> is_punct(#[trigger] ls[a].0[b]),
                forall|b: int| 0 <= b < c ==> is_punct(#[trigger] ls[k as int].0[b]),
            decreases text@.len() - c,
        {
            let ch = text[c];
            if !(is_white(ch) || ch == '{' || ch == '}') {
                assert(!is_punct(ls[k as int].0[c as int]));
                return false;
            }
            c = c + 1;
        }
        k = k + 1;
    }
    true
}

/// The two runs hold the same keys, position by position.
pub fn compare_lines(a: &[Line], b: &[Line]) -> (r: bool)
    requires
        a@.len() == b@.len(),
    ensures
        r == same_texts(lines_view(a@), lines_view(b@)),
{
    let mut k: usize = 0;
    while k < a.len()
        invariant
            k <= a@.len(),
            a@.len() == b@.len(),
            forall|m: int| 0 <= m < k ==> (#[trigger] lines_view(a@)[m]).0 == lines_view(b@)[m].0,
        decreases a@.len() - k,
    {
        if !a[k].eq_txt(&b[k]) {
            assert(lines_view(a@)[k as int].0 != lines_view(b@)[k as int].0);
            return false;
        }
        k = k + 1;
    }
    true
}

/// The merging rule for two successive spans.
pub fn merge_spans(x: Span, y: Span) -> (r: Result<Span, (Span, Span)>)
    ensures
        r == merge_rule(x, y),
{
    if x.1 < y.0 {
        Err((x, y))
    } else {
        Ok(x)
    }
}

/// Relies on `Itertools::coalesce`: the closure is offered the pending item
/// and the next one; `Ok(m)` makes `m` pending, `Err((a, b))` emits `a` and
/// makes `b` pending; the last pending item is emitted at the end.
#[verifier::external_body]
fn coalesce_spans(spans: Vec<Span>) -> (r: Vec<Span>)
    ensures
        r@ == coalesced(spans@),
{
    spans.into_iter().coalesce(|x, y| merge_spans(x, y)).collect()
}

proof fn lemma_matching_bounds(ls: Seq<(Seq<char>, usize)>, total: nat, p: int, w: int, j: int)
    requires
        wf_lines(ls, total),
        1 <= w,
        0 <= j <= ls.len() - w + 1,
    ensures
        forall|k: int|
            0 <= k < matching_spans(ls, p, w, j).len() ==> (#[trigger] matching_spans(ls, p, w, j)[k]).0
                <= matching_spans(ls, p, w, j)[k].1 < total,
    decreases j,
{
    if j > 0 {
        lemma_matching_bounds(ls, total, p, w, j - 1);
        let r = matching_spans(ls, p, w, j - 1);
        let a = ls[j - 1];
        let b = ls[j - 1 + w - 1];
        if w > 1 {
            assert(a.1 < b.1);
        }
        assert(a.1 < total && b.1 < total);
        if same_window(ls, j - 1, p, w) {
            let t = r.push(span_of(ls, j - 1, w));
            assert(matching_spans(ls, p, w, j) == t);
            assert forall|k: int| 0 <= k < t.len() implies (#[trigger] t[k]).0 <= t[k].1 < total by {
                if k < r.len() {
                    assert(t[k] == r[k]);
                }
            }
        }
    }
}

proof fn lemma_coalesced_sorted(s: Seq<Span>, total: nat)
    requires
        forall|k: int| 0 <= k < s.len() ==> (#[trigger] s[k]).0 <= s[k].1 < total,
    ensures
        forall|k: int| 0 <= k < coalesced(s).len() ==> (#[trigger] coalesced(s)[k]).0 <= coalesced(s)[k].1 < total,
        forall|k: int, l: int| 0 <= k < l < coalesced(s).len() ==> (#[trigger] coalesced(s)[k]).1 < (#[trigger] coalesced(s)[l]).0,
    decreases s.len(),
{
    if s.len() > 0 {
        let t = s.drop_last();
        lemma_coalesced_sorted(t, total);
        let r = coalesced(t);
        if r.len() > 0 {
            assert(r.update(r.len() - 1, r.last()) =~= r);
            let c = coalesced(s);
            if r.last().1 < s.last().0 {
                assert(c =~= r.push(s.last()));
                assert forall|k: int, l: int| 0 <= k < l < c.len() implies (#[trigger] c[k]).1 < (#[trigger] c[l]).0 by {
                    if l == c.len() - 1 && k < r.len() - 1 {
                        assert(r[k].1 < r[r.len() - 1].0);
                    }
                }
            }
        }
    }
}

proof fn lemma_covers_step(g: Seq<Span>, k: int, x: int)
    requires
        0 <= k < g.len(),
    ensures
        covers(g.subrange(0, k + 1), x) == (covers(g.subrange(0, k), x) || (g[k].0 <= x <= g[k].1)),
{
    let a = g.subrange(0, k + 1);
    let b = g.subrange(0, k);
    if covers(a, x) {
        let m = choose|m: int| 0 <= m < a.len() && (#[trigger] a[m]).0 <= x <= a[m].1;
        if m < k {
            assert(b[m] == a[m]);
        }
    }
    if covers(b, x) {
        let m = choose|m: int| 0 <= m < b.len() && (#[trigger] b[m]).0 <= x <= b[m].1;
        assert(a[m] == b[m]);
    }
    if g[k].0 <= x <= g[k].1 {
        assert(a[k] == g[k]);
    }
}

/// Spans of all windows of `w` lines that match the window at `p`.
fn find_matches(sl: &[Line], p: usize, w: usize) -> (r: Vec<Span>)
    requires
        1 <= w,
        p + w <= sl@.len(),
    ensures
        r@ == matching_spans(lines_view(sl@), p as int, w as int, sl@.len() - w + 1),
{
    let ghost ls = lines_view(sl@);
    let n = sl.len();
    let pat = &sl[p..p + w];
    assert(lines_view(pat@) =~= ls.subrange(p as int, p + w));
    let mut r: Vec<Span> = Vec::new();
    let mut j: usize = 0;
    while j <= n - w
        invariant
            pat@.len() == w,
            1 <= w,
            p + w <= n,
            n == sl@.len(),
            ls == lines_view(sl@),
            lines_view(pat@) == ls.subrange(p as int, p + w),
            j <= n - w + 1,
            r@ == matching_spans(ls, p as int, w as int, j as int),
        decreases n - j,
    {
        let win = &sl[j..j + w];
        assert(lines_view(win@) =~= ls.subrange(j as int, j + w));
        assert(win@.len() == w);
        if compare_lines(win, pat) {
            r.push((sl[j].nr, sl[j + w - 1].nr));
        }
        j = j + 1;
    }
    r
}

/// Whether some line of `g` is already claimed.
fn has_conflict(used: &Vec<bool>, g: &Vec<Span>) -> (r: bool)
    requires
        forall|k: int| 0 <= k < g@.len() ==> (#[trigger] g@[k]).0 <= g@[k].1 < used@.len(),
    ensures
        r == conflicts(used@, g@),
{
    let mut k: usize = 0;
    while k < g.len()
        invariant
            k <= g@.len(),
            forall|m: int| 0 <= m < g@.len() ==> (#[trigger] g@[m]).0 <= g@[m].1 < used@.len(),
            forall|i: int| 0 <= i < used@.len() && used@[i] ==> !covers(g@.subrange(0, k as int), i),
        decreases g@.len() - k,
    {
        let (a, b) = g[k];
        let len = used.len();
        let mut i: usize = a;
        while i <= b
            invariant
                len == used@.len(),
                k < g@.len(),
                g@[k as int] == (a, b),
                b < used@.len(),
                a <= i <= b + 1,
                forall|x: int| a <= x < i ==> !used@[x],
            decreases b + 1 - i,
        {
            if used[i] {
                assert(covers(g@, i as int)) by {
                    assert(g@[k as int].0 <= i <= g@[k as int].1);
                }
                return true;
            }
            i = i + 1;
        }
        assert forall|x: int| 0 <= x < used@.len() && used@[x] implies !covers(g@.subrange(0, k + 1), x) by {
            lemma_covers_step(g@, k as int, x);
        }
        k = k + 1;
    }
    assert(g@.subrange(0, g@.len() as int) =~= g@);
    false
}

/// Claims every line of every span of `g`.
fn claim_spans(used: &mut Vec<bool>, g: &Vec<Span>)
    requires
        forall|k: int| 0 <= k < g@.len() ==> (#[trigger] g@[k]).0 <= g@[k].1 < old(used)@.len(),
    ensures
        final(used)@ == claim(old(used)@, g@),
{
    let ghost start = used@;
    let mut k: usize = 0;
    assert(used@ =~= claim(start, g@.subrange(0, 0)));
    while k < g.len()
        invariant
            k <= g@.len(),
            start.len() == used@.len(),
            forall|m: int| 0 <= m < g@.len() ==> (#[trigger] g@[m]).0 <= g@[m].1 < start.len(),
            used@ == claim(start, g@.subrange(0, k as int)),
        decreases g@.len() - k,
    {
        let (a, b) = g[k];
        let ghost before = used@;
        let len = used.len();
        let mut i: usize = a;
        while i <= b
            invariant
                len == used@.len(),
                k < g@.len(),
                b < used@.len(),
                before.len() == used@.len(),
                a <= i <= b + 1,
                forall|x: int| 0 <= x < used@.len() ==> #[trigger] used@[x] == (before[x] || (a <= x < i)),
            decreases b + 1 - i,
        {
            used.set(i, true);
            i = i + 1;
        }
        assert forall|x: int| 0 <= x < used@.len() implies #[trigger] used@[x] == claim(start, g@.subrange(0, k + 1))[x] by {
            lemma_covers_step(g@, k as int, x);
        }
        assert(used@ =~= claim(start, g@.subrange(0, k + 1)));
        k = k + 1;
    }
    assert(g@.subrange(0, g@.len() as int) =~= g@);
}

/// Applies the window of `w` lines at `p` to the claimed lines and the groups.
fn claim_window(
    sl: &[Line],
    total: usize,
    w: usize,
    p: usize,
    used: &mut Vec<bool>,
    results: &mut Vec<Vec<Span>>,
)
    requires
        wf_lines(lines_view(sl@), total as nat),
        1 <= w,
        p + w <= sl@.len(),
        old(used)@.len() == total,
    ensures
        final(used)@.len() == total,
        (final(used)@, groups_view(final(results)@)) == step(
            lines_view(sl@),
            (old(used)@, groups_view(old(results)@)),
            w as int,
            p as int,
        ),
{
    let ghost ls = lines_view(sl@);
    let n = sl.len();
    assert(ls[p as int].1 == sl@[p as int].nr);
    let pattern = &sl[p..p + w];
    assert(lines_view(pattern@) =~= ls.subrange(p as int, p + w));
    if used[sl[p].nr] || only_braces(pattern) {
        return;
    }
    let matches = find_matches(sl, p, w);
    let g = coalesce_spans(matches);
    proof {
        lemma_matching_bounds(ls, total as nat, p as int, w as int, ls.len() - w + 1);
        lemma_coalesced_sorted(matches@, total as nat);
    }
    if g.len() < 2 || has_conflict(used, &g) {
        return;
    }
    claim_spans(used, &g);
    let ghost prev = groups_view(results@);
    results.push(g);
    assert(groups_view(results@) =~= prev.push(g@));
}

/// The duplicate groups of non-empty lines over `total` physical lines.
pub fn find_groups(lines: &Vec<Line>, total: usize) -> (r: Vec<Vec<Span>>)
    requires
        wf_lines(lines_view(lines@), total as nat),
    ensures
        groups_view(r@) == greedy_groups(lines_view(lines@), total as nat),
        spans_disjoint(groups_view(r@)),
        groups_repeat(groups_view(r@)),
{
    proof {
        lemma_greedy_groups_disjoint(lines_view(lines@), total as nat);
    }
    let sl = lines.as_slice();
    let ghost ls = lines_view(sl@);
    let n = sl.len();
    let mut used: Vec<bool> = Vec::new();
    while used.len() < total
        invariant
            used@.len() <= total,
            forall|i: int| 0 <= i < used@.len() ==> !(#[trigger] used@[i]),
        decreases total - used@.len(),
    {
        used.push(false);
    }
    assert(used@ =~= Seq::new(total as nat, |i: int| false));
    let mut results: Vec<Vec<Span>> = Vec::new();
    assert(groups_view(results@) =~= Seq::<Seq<Span>>::empty());
    let mut w: usize = n / 2;
    while w >= 1
        invariant
            n == sl@.len(),
            ls == lines_view(sl@),
            ls == lines_view(lines@),
            wf_lines(ls, total as nat),
            w <= n / 2,
            used@.len() == total,
            (used@, groups_view(results@)) == scan_widths(ls, total as nat, (n / 2 - w) as nat),
        decreases w,
    {
        let ghost before = (used@, groups_view(results@));
        let mut p: usize = 0;
        while p <= n - w
            invariant
                n == sl@.len(),
                ls == lines_view(sl@),
                wf_lines(ls, total as nat),
                1 <= w <= n / 2,
                p <= n - w + 1,
                used@.len() == total,
                (used@, groups_view(results@)) == scan_width(ls, before, w as int, p as int),
            decreases n - p,
        {
            claim_window(sl, total, w, p, &mut used, &mut results);
            p = p + 1;
        }
        assert((used@, groups_view(results@)) == scan_widths(ls, total as nat, (n / 2 - w + 1) as nat));
        w = w - 1;
    }
    results
}

/// The duplicate groups of a text, in the order of discovery.
pub fn find_dup_lines(code: &str) -> (r: Vec<Vec<Span>>)
    ensures
        groups_view(r@) == dup_groups(code@),
        spans_disjoint(groups_view(r@)),
        groups_repeat(groups_view(r@)),
{
    let chars = chars_of(code);
    let raw = split_lines(&chars);
    let total = raw.len();
    proof {
        assert(lines_of(code@).len() == total);
        lemma_dup_groups_disjoint(code@);
    }
    let ghost keys = line_keys(code@);
    assert(keys.len() == raw@.len());
    let mut lines: Vec<Line> = Vec::new();
    let mut i: usize = 0;
    while i < raw.len()
        invariant
            i <= raw@.len(),
            keys == line_keys(code@),
            keys.len() == raw@.len(),
            texts_view(raw@) == lines_of(code@),
            lines_view(lines@) == keyed_lines(keys, i as int),
            wf_lines(lines_view(lines@), i as nat),
        decreases raw@.len() - i,
    {
        let text = normalize_line(&raw[i]);
        assert(text@ == keys[i as int]) by {
            assert(texts_view(raw@)[i as int] == raw@[i as int]@);
        }
        let line = Line { text, nr: i };
        let ghost prev = lines_view(lines@);
        if !line.empty_line() {
            lines.push(line);
            assert(lines_view(lines@) =~= prev.push((keys[i as int], i)));
        }
        i = i + 1;
    }
    find_groups(&lines, total)
}

} // verus!
