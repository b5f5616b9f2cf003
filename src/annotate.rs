//! Highlight flags for every physical line of a text.
use crate::finder::{covers, dup_groups, find_dup_lines, groups_view, Span};
use crate::text::{all_ws, chars_of, is_white, lines_of, split_lines, texts_view};
use vstd::prelude::*;

verus! {

/// Physical line `i` lies in an occurrence of one of the groups.
pub open spec fn in_some_group(gs: Seq<Seq<Span>>, i: int) -> bool {
    exists|a: int| 0 <= a < gs.len() && #[trigger] covers(gs[a], i)
}

/// Whether physical line `i` of a text is highlighted: it holds more than
/// whitespace and lies in an occurrence of a duplicate group.
pub open spec fn highlighted(s: Seq<char>, i: int) -> bool {
    !all_ws(lines_of(s)[i]) && in_some_group(dup_groups(s), i)
}

fn blank(line: &Vec<char>) -> (r: bool)
    ensures
        r == all_ws(line@),
{
    let mut k: usize = 0;
    while k < line.len()
        invariant
            k <= line@.len(),
            forall|m: int| 0 <= m < k ==> crate::text::is_ws(#[trigger] line@[m]),
        decreases line@.len() - k,
    {
        if !is_white(line[k]) {
            return false;
        }
        k = k + 1;
    }
    true
}

fn group_covers(groups: &Vec<Vec<Span>>, i: usize) -> (r: bool)
    ensures
        r == in_some_group(groups_view(groups@), i as int),
{
    let ghost gs = groups_view(groups@);
    let mut a: usize = 0;
    while a < groups.len()
        invariant
            a <= groups@.len(),
            gs == groups_view(groups@),
            forall|b: int| 0 <= b < a ==> !covers(#[trigger] gs[b], i as int),
        decreases groups@.len() - a,
    {
        let g = &groups[a];
        assert(g@ == gs[a as int]);
        let mut k: usize = 0;
        while k < g.len()
            invariant
                a < groups@.len(),
                gs == groups_view(groups@),
                g@ == gs[a as int],
                k <= g@.len(),
                forall|m: int| 0 <= m < k ==> !((#[trigger] g@[m]).0 <= i <= g@[m].1),
            decreases g@.len() - k,
        {
            if g[k].0 <= i && i <= g[k].1 {
                assert(covers(gs[a as int], i as int));
                assert(in_some_group(gs, i as int));
                return true;
            }
            k = k + 1;
        }
        a = a + 1;
    }
    false
}

/// One flag per physical line of the text, in order: the line holds more
/// than whitespace and lies in an occurrence of a duplicate group. A blank
/// line is never highlighted.
pub fn highlight_lines(code: &str) -> (r: Vec<bool>)
    ensures
        r@.len() == lines_of(code@).len(),
        forall|i: int| 0 <= i < r@.len() ==> #[trigger] r@[i] == highlighted(code@, i),
        forall|i: int| 0 <= i < r@.len() && all_ws(lines_of(code@)[i]) ==> !#[trigger] r@[i],
{
    let groups = find_dup_lines(code);
    let chars = chars_of(code);
    let raw = split_lines(&chars);
    let mut r: Vec<bool> = Vec::new();
    let mut i: usize = 0;
    while i < raw.len()
        invariant
            i <= raw@.len(),
            r@.len() == i,
            texts_view(raw@) == lines_of(code@),
            groups_view(groups@) == dup_groups(code@),
            forall|m: int| 0 <= m < i ==> #[trigger] r@[m] == highlighted(code@, m),
        decreases raw@.len() - i,
    {
        assert(raw@[i as int]@ == lines_of(code@)[i as int]) by {
            assert(texts_view(raw@)[i as int] == raw@[i as int]@);
        }
        let flag = !blank(&raw[i]) && group_covers(&groups, i);
        r.push(flag);
        i = i + 1;
    }
    r
}

} // verus!
