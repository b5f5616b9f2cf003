//! Characters, physical lines and the normalized comparison key of a line.
use vstd::prelude::*;

verus! {

/// Whitespace in the Unicode sense (the `White_Space` property), the set of
/// characters that `char::is_whitespace` and `str::trim` treat as whitespace.
pub open spec fn is_ws(c: char) -> bool {
    let v = c as u32;
    (9 <= v && v <= 13) || v == 32 || v == 0x85 || v == 0xa0 || v == 0x1680 || (0x2000 <= v
        && v <= 0x200a) || v == 0x2028 || v == 0x2029 || v == 0x202f || v == 0x205f || v
        == 0x3000
}

/// True when every character of `s` is whitespace (also for the empty text).
pub open spec fn all_ws(s: Seq<char>) -> bool {
    forall|k: int| 0 <= k < s.len() ==> is_ws(#[trigger] s[k])
}

/// The physical lines of a text: the pieces between line-feed characters.
/// A text without a line feed is one line; a trailing line feed ends in an
/// empty last line.
pub open spec fn lines_of(s: Seq<char>) -> Seq<Seq<char>>
    decreases s.len(),
{
    if s.len() == 0 {
        seq![Seq::<char>::empty()]
    } else {
        let prev = lines_of(s.drop_last());
        if s.last() == '\n' {
            prev.push(Seq::<char>::empty())
        } else {
            prev.update(prev.len() - 1, prev.last().push(s.last()))
        }
    }
}

/// `s` without its leading whitespace.
pub open spec fn trim_start(s: Seq<char>) -> Seq<char>
    decreases s.len(),
{
    if s.len() > 0 && is_ws(s[0]) {
        trim_start(s.drop_first())
    } else {
        s
    }
}

/// `s` without its trailing whitespace.
pub open spec fn trim_end(s: Seq<char>) -> Seq<char>
    decreases s.len(),
{
    if s.len() > 0 && is_ws(s.last()) {
        trim_end(s.drop_last())
    } else {
        s
    }
}

/// `s` without leading and trailing whitespace.
pub open spec fn trim(s: Seq<char>) -> Seq<char> {
    trim_end(trim_start(s))
}

/// `s` with every space character (U+0020) removed.
pub open spec fn strip_spaces(s: Seq<char>) -> Seq<char>
    decreases s.len(),
{
    if s.len() == 0 {
        s
    } else if s.last() == ' ' {
        strip_spaces(s.drop_last())
    } else {
        strip_spaces(s.drop_last()).push(s.last())
    }
}

/// The comparison key of a line: trimmed, then stripped of spaces.
pub open spec fn normalize(s: Seq<char>) -> Seq<char> {
    strip_spaces(trim(s))
}

/// Whether `c` is whitespace, as `char::is_whitespace` decides it.
pub fn is_white(c: char) -> (r: bool)
    ensures
        r == is_ws(c),
{
    let v = c as u32;
    (9 <= v && v <= 13) || v == 32 || v == 0x85 || v == 0xa0 || v == 0x1680 || (0x2000 <= v
        && v <= 0x200a) || v == 0x2028 || v == 0x2029 || v == 0x202f || v == 0x205f || v
        == 0x3000
}

/// Relies on `str::chars`: the characters of the text, in order.
#[verifier::external_body]
pub(crate) fn chars_of(s: &str) -> (r: Vec<char>)
    ensures
        r@ == s@,
{
    s.chars().collect()
}

/// The views of a sequence of character vectors.
pub open spec fn texts_view(v: Seq<Vec<char>>) -> Seq<Seq<char>> {
    v.map_values(|l: Vec<char>| l@)
}

/// Splits a text into its physical lines at each line feed.
pub fn split_lines(s: &Vec<char>) -> (r: Vec<Vec<char>>)
    ensures
        texts_view(r@) == lines_of(s@),
{
    let mut r: Vec<Vec<char>> = Vec::new();
    r.push(Vec::new());
    assert(texts_view(r@) =~= lines_of(s@.subrange(0, 0)));
    let mut i: usize = 0;
    while i < s.len()
        invariant
            i <= s@.len(),
            r@.len() >= 1,
            texts_view(r@) == lines_of(s@.subrange(0, i as int)),
        decreases s@.len() - i,
    {
        let c = s[i];
        assert(s@.subrange(0, i + 1).drop_last() =~= s@.subrange(0, i as int));
        if c == '\n' {
            r.push(Vec::new());
        } else {
            let mut cur = r.pop().unwrap();
            cur.push(c);
            r.push(cur);
        }
        i = i + 1;
        assert(texts_view(r@) =~= lines_of(s@.subrange(0, i as int)));
    }
    assert(s@.subrange(0, s@.len() as int) =~= s@);
    r
}

proof fn lemma_trim_start(s: Seq<char>, i: int)
    requires
        0 <= i <= s.len(),
        forall|k: int| 0 <= k < i ==> is_ws(#[trigger] s[k]),
        i == s.len() || !is_ws(s[i]),
    ensures
        trim_start(s) == s.subrange(i, s.len() as int),
    decreases i,
{
    if i == 0 {
        assert(s.subrange(0, s.len() as int) =~= s);
    } else {
        let t = s.drop_first();
        assert forall|k: int| 0 <= k < i - 1 implies is_ws(#[trigger] t[k]) by {
            assert(t[k] == s[k + 1]);
        }
        lemma_trim_start(t, i - 1);
        assert(t.subrange(i - 1, t.len() as int) =~= s.subrange(i, s.len() as int));
    }
}

proof fn lemma_trim_end(s: Seq<char>, j: int)
    requires
        0 <= j <= s.len(),
        forall|k: int| j <= k < s.len() ==> is_ws(#[trigger] s[k]),
        j == 0 || !is_ws(s[j - 1]),
    ensures
        trim_end(s) == s.subrange(0, j),
    decreases s.len() - j,
{
    if j == s.len() {
        assert(s.subrange(0, j) =~= s);
    } else {
        let t = s.drop_last();
        lemma_trim_end(t, j);
        assert(t.subrange(0, j) =~= s.subrange(0, j));
    }
}

/// The comparison key of one line.
pub fn normalize_line(s: &Vec<char>) -> (r: Vec<char>)
    ensures
        r@ == normalize(s@),
{
    let n = s.len();
    let mut i: usize = 0;
    while i < n && is_white(s[i])
        invariant
            n == s@.len(),
            i <= n,
            forall|k: int| 0 <= k < i ==> is_ws(#[trigger] s@[k]),
        decreases n - i,
    {
        i = i + 1;
    }
    let mut j: usize = n;
    while j > i && is_white(s[j - 1])
        invariant
            n == s@.len(),
            i <= j <= n,
            forall|k: int| j <= k < n ==> is_ws(#[trigger] s@[k]),
        decreases j,
    {
        j = j - 1;
    }
    proof {
        lemma_trim_start(s@, i as int);
        let t = s@.subrange(i as int, n as int);
        assert forall|k: int| j - i <= k < t.len() implies is_ws(#[trigger] t[k]) by {
            assert(t[k] == s@[k + i]);
        }
        lemma_trim_end(t, j - i);
        assert(t.subrange(0, j - i) =~= s@.subrange(i as int, j as int));
    }
    let ghost core = s@.subrange(i as int, j as int);
    let mut r: Vec<char> = Vec::new();
    let mut k: usize = i;
    assert(core.subrange(0, 0) =~= Seq::<char>::empty());
    while k < j
        invariant
            i <= k <= j <= n,
            n == s@.len(),
            core == s@.subrange(i as int, j as int),
            r@ == strip_spaces(core.subrange(0, k - i)),
        decreases j - k,
    {
        let c = s[k];
        assert(core.subrange(0, k + 1 - i).drop_last() =~= core.subrange(0, k - i));
        if c != ' ' {
            r.push(c);
        }
        k = k + 1;
    }
    assert(core.subrange(0, j - i) =~= core);
    r
}

/// No character of `s` is a space.
pub open spec fn no_spaces(s: Seq<char>) -> bool {
    forall|k: int| 0 <= k < s.len() ==> #[trigger] s[k] != ' '
}

/// `s` is empty, or starts and ends with a character that is not whitespace.
pub open spec fn trimmed(s: Seq<char>) -> bool {
    s.len() == 0 || (!is_ws(s[0]) && !is_ws(s.last()))
}

pub(crate) proof fn lemma_trim_end_prefix(s: Seq<char>)
    ensures
        trim_end(s).len() <= s.len(),
        trim_end(s) == s.subrange(0, trim_end(s).len() as int),
        trim_end(s).len() == 0 || !is_ws(trim_end(s).last()),
        forall|k: int| trim_end(s).len() <= k < s.len() ==> is_ws(#[trigger] s[k]),
    decreases s.len(),
{
    if s.len() > 0 && is_ws(s.last()) {
        lemma_trim_end_prefix(s.drop_last());
        let t = trim_end(s.drop_last());
        assert(s.drop_last().subrange(0, t.len() as int) =~= s.subrange(0, t.len() as int));
        assert forall|k: int| t.len() <= k < s.len() implies is_ws(#[trigger] s[k]) by {
            if k < s.len() - 1 {
                assert(s.drop_last()[k] == s[k]);
            }
        }
    } else {
        assert(s.subrange(0, s.len() as int) =~= s);
    }
}

proof fn lemma_trim_start_shape(s: Seq<char>)
    ensures
        trim_start(s).len() == 0 || !is_ws(trim_start(s)[0]),
    decreases s.len(),
{
    if s.len() > 0 && is_ws(s[0]) {
        lemma_trim_start_shape(s.drop_first());
    }
}

proof fn lemma_trim_trimmed(s: Seq<char>)
    ensures
        trimmed(trim(s)),
{
    lemma_trim_start_shape(s);
    let t = trim_start(s);
    lemma_trim_end_prefix(t);
    let u = trim_end(t);
    if u.len() > 0 {
        assert(u[0] == t[0]);
    }
}

proof fn lemma_trimmed_fixed(s: Seq<char>)
    requires
        trimmed(s),
    ensures
        trim(s) == s,
{
}

proof fn lemma_strip_shape(s: Seq<char>)
    ensures
        no_spaces(strip_spaces(s)),
        strip_spaces(s).len() <= s.len(),
        s.len() > 0 && s.last() != ' ' ==> strip_spaces(s).len() > 0 && strip_spaces(s).last() == s.last(),
        s.len() > 0 && s[0] != ' ' ==> strip_spaces(s).len() > 0 && strip_spaces(s)[0] == s[0],
        s.len() == 0 ==> strip_spaces(s).len() == 0,
    decreases s.len(),
{
    if s.len() > 0 {
        let t = s.drop_last();
        lemma_strip_shape(t);
        let r = strip_spaces(t);
        if s.last() != ' ' {
            assert forall|k: int| 0 <= k < r.push(s.last()).len() implies #[trigger] r.push(s.last())[k] != ' ' by {
                if k < r.len() {
                    assert(r.push(s.last())[k] == r[k]);
                }
            }
        }
        if s[0] != ' ' && t.len() > 0 {
            assert(t[0] == s[0]);
        }
    }
}

proof fn lemma_strip_no_spaces(s: Seq<char>)
    requires
        no_spaces(s),
    ensures
        strip_spaces(s) == s,
    decreases s.len(),
{
    if s.len() > 0 {
        lemma_strip_no_spaces(s.drop_last());
        assert(s.drop_last().push(s.last()) =~= s);
    }
}

/// Normalizing a normalized line changes nothing.
pub proof fn lemma_normalize_idempotent(s: Seq<char>)
    ensures
        normalize(normalize(s)) == normalize(s),
{
    let u = trim(s);
    lemma_trim_trimmed(s);
    lemma_strip_shape(u);
    let v = strip_spaces(u);
    if u.len() > 0 {
        assert(u[0] != ' ' && u.last() != ' ');
    }
    assert(trimmed(v));
    lemma_trimmed_fixed(v);
    lemma_strip_no_spaces(v);
}

pub(crate) proof fn lemma_trim_start_suffix(s: Seq<char>)
    ensures
        trim_start(s).len() <= s.len(),
        trim_start(s) == s.subrange(s.len() - trim_start(s).len(), s.len() as int),
        forall|k: int| 0 <= k < s.len() - trim_start(s).len() ==> is_ws(#[trigger] s[k]),
    decreases s.len(),
{
    if s.len() > 0 && is_ws(s[0]) {
        let t = s.drop_first();
        lemma_trim_start_suffix(t);
        let r = trim_start(t);
        assert(t.subrange(t.len() - r.len(), t.len() as int) =~= s.subrange(s.len() - r.len(), s.len() as int));
        assert forall|k: int| 0 <= k < s.len() - r.len() implies is_ws(#[trigger] s[k]) by {
            if k > 0 {
                assert(s[k] == t[k - 1]);
            }
        }
    } else {
        assert(s.subrange(0, s.len() as int) =~= s);
    }
}

proof fn lemma_strip_concat(a: Seq<char>, b: Seq<char>)
    ensures
        strip_spaces(a + b) == strip_spaces(a) + strip_spaces(b),
    decreases b.len(),
{
    if b.len() == 0 {
        assert(a + b =~= a);
        assert(strip_spaces(a) + strip_spaces(b) =~= strip_spaces(a));
    } else {
        lemma_strip_concat(a, b.drop_last());
        assert((a + b).drop_last() =~= a + b.drop_last());
        assert((a + b).last() == b.last());
        if b.last() != ' ' {
            assert(strip_spaces(a) + strip_spaces(b.drop_last()).push(b.last()) =~= (strip_spaces(a)
                + strip_spaces(b.drop_last())).push(b.last()));
        }
    }
}

proof fn lemma_strip_ws(a: Seq<char>)
    requires
        all_ws(a),
    ensures
        all_ws(strip_spaces(a)),
    decreases a.len(),
{
    if a.len() > 0 {
        lemma_strip_ws(a.drop_last());
        let r = strip_spaces(a.drop_last());
        assert(all_ws(a.drop_last()));
        if a.last() != ' ' {
            assert forall|k: int| 0 <= k < r.push(a.last()).len() implies is_ws(#[trigger] r.push(a.last())[k]) by {
                if k < r.len() {
                    assert(r.push(a.last())[k] == r[k]);
                }
            }
        }
    }
}

proof fn lemma_trim_wrap(a: Seq<char>, b: Seq<char>, c: Seq<char>)
    requires
        all_ws(a),
        all_ws(c),
        trimmed(b),
    ensures
        trim(a + b + c) == b,
{
    let z = a + b + c;
    if b.len() > 0 {
        assert forall|k: int| 0 <= k < a.len() implies is_ws(#[trigger] z[k]) by {
            assert(z[k] == a[k]);
        }
        assert(z[a.len() as int] == b[0]);
        lemma_trim_start(z, a.len() as int);
        let t = z.subrange(a.len() as int, z.len() as int);
        assert(t =~= b + c);
        assert forall|k: int| b.len() <= k < t.len() implies is_ws(#[trigger] t[k]) by {
            assert(t[k] == c[k - b.len()]);
        }
        assert(t[b.len() - 1] == b.last());
        lemma_trim_end(t, b.len() as int);
        assert(t.subrange(0, b.len() as int) =~= b);
    } else {
        assert forall|k: int| 0 <= k < z.len() implies is_ws(#[trigger] z[k]) by {
            if k < a.len() {
                assert(z[k] == a[k]);
            } else {
                assert(z[k] == c[k - a.len()]);
            }
        }
        lemma_trim_start(z, z.len() as int);
        assert(z.subrange(z.len() as int, z.len() as int) =~= b);
    }
}

proof fn lemma_normalize_by_strip(x: Seq<char>)
    ensures
        normalize(x) == trim(strip_spaces(x)),
{
    lemma_trim_start_suffix(x);
    let t = trim_start(x);
    let i = x.len() - t.len();
    lemma_trim_start_shape(x);
    lemma_trim_end_prefix(t);
    let m = trim_end(t);
    let left = x.subrange(0, i);
    let right = t.subrange(m.len() as int, t.len() as int);
    assert(x =~= left + m + right);
    assert(all_ws(left));
    assert forall|k: int| 0 <= k < right.len() implies is_ws(#[trigger] right[k]) by {
        assert(right[k] == t[k + m.len()]);
    }
    if m.len() > 0 {
        assert(m[0] == t[0]);
    }
    lemma_strip_concat(left, m);
    lemma_strip_concat(left + m, right);
    lemma_strip_ws(left);
    lemma_strip_ws(right);
    lemma_strip_shape(m);
    let sm = strip_spaces(m);
    if m.len() > 0 {
        assert(m[0] != ' ' && m.last() != ' ');
    }
    assert(trimmed(sm));
    lemma_trim_wrap(strip_spaces(left), sm, strip_spaces(right));
}

/// Lines that differ only in where and how many space characters they hold
/// have the same key.
pub proof fn lemma_spaces_ignored(x: Seq<char>, y: Seq<char>)
    requires
        strip_spaces(x) == strip_spaces(y),
    ensures
        normalize(x) == normalize(y),
{
    lemma_normalize_by_strip(x);
    lemma_normalize_by_strip(y);
}

} // verus!
