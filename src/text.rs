//! Character-level helpers shared by the parsers and the renderers.

use vstd::prelude::*;
use vstd::std_specs::iter::IteratorSpec;

verus! {

/// Relies on `String::push`: appends one character at the end.
#[verifier::external_body]
pub(crate) fn push_char(s: &mut String, c: char)
    ensures
        final(s)@ == old(s)@.push(c),
{
    s.push(c);
}

/// The characters of `s`, in order.
pub fn to_chars(s: &str) -> (r: Vec<char>)
    ensures
        r@ == s@,
{
    broadcast use vstd::string::group_string_axioms;
    let mut it = s.chars();
    let mut r: Vec<char> = Vec::new();
    loop
        invariant
            r@ + it.remaining() == s@,
            it.decrease() is Some,
        decreases it.decrease()->0,
    {
        match it.next() {
            Some(c) => {
                r.push(c);
            },
            None => {
                return r;
            },
        }
    }
}

/// Unicode `White_Space`: the characters that trimming removes and that the
/// assignment grammar skips.
pub open spec fn is_ws(c: char) -> bool {
    let u = c as u32;
    (9 <= u <= 13) || u == 32 || u == 0x85 || u == 0xa0 || u == 0x1680 || (0x2000 <= u
        <= 0x200a) || u == 0x2028 || u == 0x2029 || u == 0x202f || u == 0x205f || u == 0x3000
}

pub fn is_whitespace(c: char) -> (r: bool)
    ensures
        r == is_ws(c),
{
    let u = c as u32;
    (9 <= u && u <= 13) || u == 32 || u == 0x85 || u == 0xa0 || u == 0x1680 || (0x2000 <= u
        && u <= 0x200a) || u == 0x2028 || u == 0x2029 || u == 0x202f || u == 0x205f || u
        == 0x3000
}

/// A line without the carriage return that ended it, if any.
pub open spec fn strip_cr(l: Seq<char>) -> Seq<char> {
    if l.len() > 0 && l.last() == '\r' {
        l.drop_last()
    } else {
        l
    }
}

/// The lines of `s` from position `i` on, where the current line began at
/// `start`. A line ends at `\n` (a `\r` before it is dropped); a final line
/// without `\n` is kept as it is; no empty line follows a final `\n`.
pub open spec fn lines_from(s: Seq<char>, i: int, start: int) -> Seq<Seq<char>>
    decreases s.len() - i,
{
    if i < 0 || i >= s.len() {
        if 0 <= start < s.len() {
            seq![s.subrange(start, s.len() as int)]
        } else {
            seq![]
        }
    } else if s[i] == '\n' {
        seq![strip_cr(s.subrange(start, i))] + lines_from(s, i + 1, i + 1)
    } else {
        lines_from(s, i + 1, start)
    }
}

/// The lines of a text.
pub open spec fn lines_of(s: Seq<char>) -> Seq<Seq<char>> {
    lines_from(s, 0, 0)
}

/// A text made of the given lines, each followed by `\n`.
pub open spec fn render(ls: Seq<Seq<char>>) -> Seq<char>
    decreases ls.len(),
{
    if ls.len() == 0 {
        seq![]
    } else {
        render(ls.drop_last()) + ls.last() + seq!['\n']
    }
}

/// The character sequences that a list of character vectors holds.
pub open spec fn views(v: Seq<Vec<char>>) -> Seq<Seq<char>> {
    v.map_values(|l: Vec<char>| l@)
}

/// The characters of `s` from `a` to `b`.
pub fn copy_range(s: &Vec<char>, a: usize, b: usize) -> (r: Vec<char>)
    requires
        a <= b <= s@.len(),
    ensures
        r@ == s@.subrange(a as int, b as int),
{
    let mut r: Vec<char> = Vec::new();
    let mut k: usize = a;
    while k < b
        invariant
            a <= k <= b <= s@.len(),
            r@ == s@.subrange(a as int, k as int),
        decreases b - k,
    {
        r.push(s[k]);
        k += 1;
    }
    r
}

/// Splits a text into its lines, as `lines_of` describes.
pub fn split_lines(s: &Vec<char>) -> (r: Vec<Vec<char>>)
    ensures
        views(r@) == lines_of(s@),
{
    let n = s.len();
    let mut r: Vec<Vec<char>> = Vec::new();
    let mut i: usize = 0;
    let mut start: usize = 0;
    while i < n
        invariant
            n == s@.len(),
            start <= i <= n,
            views(r@) + lines_from(s@, i as int, start as int) == lines_of(s@),
        decreases n - i,
    {
        if s[i] == '\n' {
            let mut end = i;
            if end > start && s[end - 1] == '\r' {
                end = end - 1;
            }
            let line = copy_range(s, start, end);
            proof {
                assert(line@ == strip_cr(s@.subrange(start as int, i as int)));
                assert(views(r@.push(line)) == views(r@).push(line@));
                assert(views(r@).push(line@) + lines_from(s@, i + 1, i + 1) == views(r@)
                    + lines_from(s@, i as int, start as int));
            }
            r.push(line);
            i += 1;
            start = i;
        } else {
            i += 1;
        }
    }
    if start < n {
        let line = copy_range(s, start, n);
        proof {
            assert(views(r@.push(line)) == views(r@).push(line@));
            assert(views(r@).push(line@) == views(r@) + lines_from(s@, i as int, start as int));
        }
        r.push(line);
    } else {
        proof {
            assert(views(r@) + lines_from(s@, i as int, start as int) == views(r@));
        }
    }
    r
}

/// Appends the characters of `t` to `s`.
pub(crate) fn push_chars(s: &mut String, t: &Vec<char>)
    ensures
        final(s)@ == old(s)@ + t@,
{
    let mut k: usize = 0;
    while k < t.len()
        invariant
            k <= t@.len(),
            s@ == old(s)@ + t@.subrange(0, k as int),
        decreases t@.len() - k,
    {
        push_char(s, t[k]);
        k += 1;
    }
}

/// A string holding the given characters.
pub fn string_of(c: &Vec<char>) -> (r: String)
    ensures
        r@ == c@,
{
    let mut r = String::new();
    push_chars(&mut r, c);
    r
}

/// The first position from `i` on that holds no whitespace.
pub open spec fn skip_ws(l: Seq<char>, i: int) -> int
    decreases l.len() - i,
{
    if 0 <= i < l.len() && is_ws(l[i]) {
        skip_ws(l, i + 1)
    } else {
        i
    }
}

pub fn skip_ws_from(l: &Vec<char>, i: usize) -> (r: usize)
    requires
        i <= l@.len(),
    ensures
        i <= r <= l@.len(),
        r == skip_ws(l@, i as int),
{
    let mut j = i;
    while j < l.len() && is_whitespace(l[j])
        invariant
            i <= j <= l@.len(),
            skip_ws(l@, i as int) == skip_ws(l@, j as int),
        decreases l@.len() - j,
    {
        j += 1;
    }
    j
}

pub proof fn lemma_skip_ws_bounds(l: Seq<char>, i: int)
    requires
        0 <= i <= l.len(),
    ensures
        i <= skip_ws(l, i) <= l.len(),
    decreases l.len() - i,
{
    if i < l.len() && is_ws(l[i]) {
        lemma_skip_ws_bounds(l, i + 1);
    }
}

/// The position just past the last non-whitespace character before `j`,
/// looking no further back than `lo`.
pub open spec fn back_ws(s: Seq<char>, j: int, lo: int) -> int
    decreases j - lo,
{
    if lo < j <= s.len() && is_ws(s[j - 1]) {
        back_ws(s, j - 1, lo)
    } else {
        j
    }
}

/// `s` without leading and trailing whitespace.
pub open spec fn trim(s: Seq<char>) -> Seq<char> {
    let a = skip_ws(s, 0);
    s.subrange(a, back_ws(s, s.len() as int, a))
}

/// `s` without leading and trailing whitespace.
pub fn trim_chars(s: &Vec<char>) -> (r: Vec<char>)
    ensures
        r@ == trim(s@),
{
    let a = skip_ws_from(s, 0);
    let mut j = s.len();
    while j > a && is_whitespace(s[j - 1])
        invariant
            a <= j <= s@.len(),
            a == skip_ws(s@, 0),
            back_ws(s@, s@.len() as int, a as int) == back_ws(s@, j as int, a as int),
        decreases j,
    {
        j -= 1;
    }
    copy_range(s, a, j)
}

/// `l` holds no newline.
pub open spec fn no_newline(l: Seq<char>) -> bool {
    forall|k: int| 0 <= k < l.len() ==> #[trigger] l[k] != '\n'
}

/// Lines are read from the text before and after a line break independently.
proof fn lemma_lines_prefix(t: Seq<char>, u: Seq<char>, i: int, start: int)
    requires
        t.len() == 0 || t.last() == '\n',
        0 <= start <= i <= t.len(),
        forall|k: int| start <= k < i ==> #[trigger] t[k] != '\n',
    ensures
        lines_from(t + u, i, start) == lines_from(t, i, start) + lines_from(t + u, t.len() as int, t.len() as int),
    decreases t.len() - i,
{
    let s = t + u;
    if i == t.len() {
        if start < i {
            assert(t[i - 1] != '\n');
        }
        assert(lines_from(t, i, start) == Seq::<Seq<char>>::empty());
    } else {
        assert(s[i] == t[i]);
        if t[i] == '\n' {
            assert(s.subrange(start, i) == t.subrange(start, i));
            lemma_lines_prefix(t, u, i + 1, i + 1);
        } else {
            lemma_lines_prefix(t, u, i + 1, start);
        }
    }
}

proof fn lemma_lines_shift(t: Seq<char>, u: Seq<char>, j: int, st: int)
    requires
        0 <= st <= j <= u.len(),
    ensures
        lines_from(t + u, t.len() + j, t.len() + st) == lines_from(u, j, st),
    decreases u.len() - j,
{
    let s = t + u;
    let n = t.len();
    if j < u.len() {
        assert(s[n + j] == u[j]);
        if u[j] == '\n' {
            assert(s.subrange(n + st, n + j) == u.subrange(st, j));
            lemma_lines_shift(t, u, j + 1, j + 1);
        } else {
            lemma_lines_shift(t, u, j + 1, st);
        }
    } else {
        if st < u.len() {
            assert(s.subrange(n + st, s.len() as int) == u.subrange(st, u.len() as int));
        }
    }
}

proof fn lemma_lines_single(l: Seq<char>, i: int)
    requires
        no_newline(l),
        0 <= i <= l.len(),
    ensures
        lines_from(l.push('\n'), i, 0) == seq![strip_cr(l)],
    decreases l.len() - i,
{
    let s = l.push('\n');
    if i < l.len() {
        assert(s[i] == l[i]);
        lemma_lines_single(l, i + 1);
    } else {
        assert(s[i] == '\n');
        assert(s.subrange(0, i) == l);
        assert(lines_from(s, i + 1, i + 1) == Seq::<Seq<char>>::empty());
    }
}

/// Splitting a rendered list of lines gives the lines back, each without a
/// final carriage return.
pub proof fn lemma_lines_of_render(ls: Seq<Seq<char>>)
    requires
        forall|i: int| 0 <= i < ls.len() ==> no_newline(#[trigger] ls[i]),
    ensures
        lines_of(render(ls)) == ls.map_values(|l: Seq<char>| strip_cr(l)),
    decreases ls.len(),
{
    if ls.len() > 0 {
        let t = render(ls.drop_last());
        let l = ls.last();
        let u = l + seq!['\n'];
        lemma_lines_of_render(ls.drop_last());
        assert(render(ls) == t + u);
        assert(t.len() == 0 || t.last() == '\n') by {
            if ls.drop_last().len() > 0 {
                assert(t == render(ls.drop_last().drop_last()) + ls.drop_last().last() + seq!['\n']);
            }
        }
        lemma_lines_prefix(t, u, 0, 0);
        lemma_lines_shift(t, u, 0, 0);
        assert(u == l.push('\n'));
        lemma_lines_single(l, 0);
        assert(ls.map_values(|l: Seq<char>| strip_cr(l)) == ls.drop_last().map_values(
            |l: Seq<char>| strip_cr(l),
        ).push(strip_cr(l)));
    } else {
        assert(render(ls) == Seq::<char>::empty());
    }
}

/// No line of a text holds a newline.
pub proof fn lemma_lines_no_newline(s: Seq<char>, i: int, start: int)
    requires
        0 <= start <= i,
        forall|k: int| start <= k < i && k < s.len() ==> #[trigger] s[k] != '\n',
    ensures
        forall|k: int| 0 <= k < lines_from(s, i, start).len() ==> no_newline(#[trigger] lines_from(s, i, start)[k]),
    decreases s.len() - i,
{
    let ls = lines_from(s, i, start);
    if 0 <= i < s.len() {
        if s[i] == '\n' {
            lemma_lines_no_newline(s, i + 1, i + 1);
            let l = s.subrange(start, i);
            assert(no_newline(strip_cr(l))) by {
                assert forall|k: int| 0 <= k < strip_cr(l).len() implies #[trigger] strip_cr(l)[k] != '\n' by {
                    assert(strip_cr(l)[k] == s[start + k]);
                }
            }
            assert forall|k: int| 0 <= k < ls.len() implies no_newline(#[trigger] ls[k]) by {
                if k > 0 {
                    assert(ls[k] == lines_from(s, i + 1, i + 1)[k - 1]);
                } else {
                    assert(ls[k] == strip_cr(l));
                }
            }
        } else {
            lemma_lines_no_newline(s, i + 1, start);
            assert(ls == lines_from(s, i + 1, start));
        }
    } else if 0 <= start < s.len() {
        let l = s.subrange(start, s.len() as int);
        assert forall|k: int| 0 <= k < ls.len() implies no_newline(#[trigger] ls[k]) by {
            assert(ls[k] == l);
            assert forall|q: int| 0 <= q < l.len() implies #[trigger] l[q] != '\n' by {
                assert(l[q] == s[start + q]);
            }
        }
    }
}

/// A line without any carriage returns at its end.
pub open spec fn strip_crs(l: Seq<char>) -> Seq<char>
    decreases l.len(),
{
    if l.len() > 0 && l.last() == '\r' {
        strip_crs(l.drop_last())
    } else {
        l
    }
}

/// The lines of a text, each without carriage returns at its end.
pub open spec fn clean_lines(s: Seq<char>) -> Seq<Seq<char>> {
    lines_of(s).map_values(|l: Seq<char>| strip_crs(l))
}

pub proof fn lemma_strip_crs(l: Seq<char>)
    ensures
        strip_crs(l).len() <= l.len(),
        strip_crs(l) == l.subrange(0, strip_crs(l).len() as int),
        strip_crs(l).len() == 0 || strip_crs(l).last() != '\r',
        strip_crs(strip_crs(l)) == strip_crs(l),
        strip_crs(strip_cr(l)) == strip_crs(l),
        strip_cr(strip_crs(l)) == strip_crs(l),
    decreases l.len(),
{
    if l.len() > 0 && l.last() == '\r' {
        lemma_strip_crs(l.drop_last());
        assert(l.drop_last().subrange(0, strip_crs(l).len() as int) == l.subrange(
            0,
            strip_crs(l).len() as int,
        ));
    } else {
        assert(l.subrange(0, l.len() as int) == l);
    }
}

/// The characters of `l` without carriage returns at its end.
pub fn strip_trailing_cr(l: &Vec<char>) -> (r: Vec<char>)
    ensures
        r@ == strip_crs(l@),
{
    let mut j = l.len();
    proof {
        assert(l@.subrange(0, j as int) == l@);
    }
    while j > 0 && l[j - 1] == '\r'
        invariant
            j <= l@.len(),
            strip_crs(l@) == strip_crs(l@.subrange(0, j as int)),
        decreases j,
    {
        assert(l@.subrange(0, j as int).drop_last() == l@.subrange(0, j - 1));
        j -= 1;
    }
    copy_range(l, 0, j)
}

} // verus!
