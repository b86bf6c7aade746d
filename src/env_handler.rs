//! The reconciliation engine: writes resolved values into a `KEY=value`
//! document, or merges them into the document that is already there.

use vstd::prelude::*;
use vstd::string::StringExecFns;
use crate::envmap::EnvMap;
use crate::template::{
    assignment_key, find_assignment_key, is_key_char, is_valid_key, lemma_assignment_key_of_line,
    template_declares,
};
use crate::text::{
    back_ws, clean_lines, copy_range, is_ws, lemma_strip_crs, strip_crs, strip_trailing_cr, lemma_lines_no_newline, lemma_lines_of_render, lines_of, no_newline,
    push_char, push_chars, render, skip_ws, skip_ws_from, split_lines, string_of, strip_cr, to_chars, trim, trim_chars,
    views,
};

verus! {

/// How resolved values meet a destination that already exists.
#[derive(Clone, Copy, Debug, PartialEq, Eq, Structural)]
pub enum Strategy {
    /// Rewrite matching assignments in place and append the other keys.
    Update,
    /// The same rewrite as `Update`: existing values are replaced silently.
    Overwrite,
    /// Refuse to touch a destination that exists.
    Error,
}

/// Why a reconciliation was refused.
#[derive(Clone, Copy, Debug, PartialEq, Eq, Structural)]
pub enum EnvError {
    /// The strategy is `Error` and the destination exists.
    DestinationExists,
}

/// The line `key=value`.
pub open spec fn assignment_line(k: Seq<char>, v: Seq<char>) -> Seq<char> {
    k + seq!['='] + v
}

/// A line of an existing document after reconciliation: an assignment of a
/// resolved key, commented out or not, becomes `key=value`; any other line
/// is kept.
pub open spec fn rewrite_line(l: Seq<char>, m: Map<Seq<char>, Seq<char>>) -> Seq<char> {
    if assignment_key(l) is Some && m.contains_key(assignment_key(l)->0) {
        assignment_line(assignment_key(l)->0, m[assignment_key(l)->0])
    } else {
        l
    }
}

/// Some line of `ls` assigns `k`.
pub open spec fn assigns(ls: Seq<Seq<char>>, k: Seq<char>) -> bool {
    exists|i: int| 0 <= i < ls.len() && assignment_key(#[trigger] ls[i]) == Some(k)
}

/// The lines `key=value` for the keys `ks` that no line of `ls` assigns, in
/// the order of `ks`.
pub open spec fn pending_lines(
    ks: Seq<Seq<char>>,
    m: Map<Seq<char>, Seq<char>>,
    ls: Seq<Seq<char>>,
) -> Seq<Seq<char>>
    decreases ks.len(),
{
    if ks.len() == 0 {
        seq![]
    } else {
        let rest = pending_lines(ks.drop_last(), m, ls);
        if assigns(ls, ks.last()) {
            rest
        } else {
            rest.push(assignment_line(ks.last(), m[ks.last()]))
        }
    }
}

/// The lines `key=value` of a mapping, in the order of its keys.
pub open spec fn fresh_lines(m: EnvMap) -> Seq<Seq<char>> {
    m.key_seq().map_values(|k: Seq<char>| assignment_line(k, m@[k]))
}

/// The document that a mapping is written as when no destination exists.
pub open spec fn written_text(m: EnvMap) -> Seq<char> {
    render(fresh_lines(m))
}

/// The lines of `existing`, without carriage returns at their ends, after
/// reconciliation, then the unassigned keys.
pub open spec fn reconciled_lines(existing: Seq<char>, m: EnvMap) -> Seq<Seq<char>> {
    clean_lines(existing).map_values(|l: Seq<char>| rewrite_line(l, m@)) + pending_lines(
        m.key_seq(),
        m@,
        clean_lines(existing),
    )
}

/// The document that reconciling `m` into `existing` produces.
pub open spec fn reconciled_text(existing: Seq<char>, m: EnvMap) -> Seq<char> {
    render(reconciled_lines(existing, m))
}

/// The first position from `i` on that holds `=`, or the end.
pub open spec fn first_eq(s: Seq<char>, i: int) -> int
    decreases s.len() - i,
{
    if 0 <= i < s.len() && s[i] != '=' {
        first_eq(s, i + 1)
    } else {
        i
    }
}

/// The key and value that a line of a document sets: after leading
/// whitespace, blank lines and comments set nothing; the key is what stands
/// before the first `=`, trimmed, the value all that follows it; a line
/// without `=` or with an empty key sets nothing.
pub open spec fn entry_of(l: Seq<char>) -> Option<(Seq<char>, Seq<char>)> {
    let a = skip_ws(l, 0);
    if a >= l.len() || l[a] == '#' {
        None
    } else {
        let e = first_eq(l, a);
        if e >= l.len() {
            None
        } else {
            let k = trim(l.subrange(a, e));
            if k.len() == 0 {
                None
            } else {
                Some((k, l.subrange(e + 1, l.len() as int)))
            }
        }
    }
}

/// What the lines of a document set, a later line winning over an earlier.
pub open spec fn parsed(ls: Seq<Seq<char>>) -> Map<Seq<char>, Seq<char>>
    decreases ls.len(),
{
    if ls.len() == 0 {
        Map::empty()
    } else {
        match entry_of(ls.last()) {
            Some((k, v)) => parsed(ls.drop_last()).insert(k, v),
            None => parsed(ls.drop_last()),
        }
    }
}

pub proof fn lemma_render_push(ls: Seq<Seq<char>>, x: Seq<char>)
    ensures
        render(ls.push(x)) == render(ls) + x + seq!['\n'],
{
    assert(ls.push(x).drop_last() == ls);
}

proof fn lemma_assigns_step(ls: Seq<Seq<char>>, i: int, k: Seq<char>)
    requires
        0 <= i < ls.len(),
    ensures
        assigns(ls.take(i + 1), k) == (assigns(ls.take(i), k) || assignment_key(ls[i]) == Some(
            k,
        )),
{
    if assigns(ls.take(i + 1), k) {
        let j = choose|j: int| 0 <= j < i + 1 && assignment_key(#[trigger] ls.take(i + 1)[j]) == Some(k);
        if j < i {
            assert(ls.take(i)[j] == ls[j]);
        }
    }
    if assigns(ls.take(i), k) {
        let j = choose|j: int| 0 <= j < i && assignment_key(#[trigger] ls.take(i)[j]) == Some(k);
        assert(ls.take(i + 1)[j] == ls[j]);
    }
    if assignment_key(ls[i]) == Some(k) {
        assert(ls.take(i + 1)[i] == ls[i]);
    }
}

/// Reconciliation replaces line `l`: it assigns a key that `m` maps.
pub open spec fn replaces(l: Seq<char>, m: Map<Seq<char>, Seq<char>>) -> bool {
    assignment_key(l) is Some && m.contains_key(assignment_key(l)->0)
}

/// How many lines of `ls` reconciliation replaces.
pub open spec fn replaced_count(ls: Seq<Seq<char>>, m: Map<Seq<char>, Seq<char>>) -> nat
    decreases ls.len(),
{
    if ls.len() == 0 {
        0
    } else {
        replaced_count(ls.drop_last(), m) + if replaces(ls.last(), m) {
            1nat
        } else {
            0nat
        }
    }
}

/// Every key of `m` is a valid key.
pub open spec fn valid_keys(m: EnvMap) -> bool {
    forall|i: int| 0 <= i < m.key_seq().len() ==> is_valid_key(#[trigger] m.key_seq()[i])
}

/// No value of `m` spans more than one line.
pub open spec fn single_line_values(m: EnvMap) -> bool {
    forall|k: Seq<char>| #[trigger] m@.contains_key(k) ==> no_newline(m@[k])
}

proof fn lemma_pending_shape(ks: Seq<Seq<char>>, m: Map<Seq<char>, Seq<char>>, ls: Seq<Seq<char>>)
    ensures
        forall|j: int|
            0 <= j < pending_lines(ks, m, ls).len() ==> exists|t: int|
                0 <= t < ks.len() && #[trigger] pending_lines(ks, m, ls)[j] == assignment_line(
                    ks[t],
                    m[ks[t]],
                ),
    decreases ks.len(),
{
    if ks.len() > 0 {
        let p = pending_lines(ks, m, ls);
        let rest = pending_lines(ks.drop_last(), m, ls);
        lemma_pending_shape(ks.drop_last(), m, ls);
        assert forall|j: int| 0 <= j < p.len() implies exists|t: int|
            0 <= t < ks.len() && #[trigger] p[j] == assignment_line(ks[t], m[ks[t]]) by {
            if j < rest.len() {
                let t = choose|t: int|
                    0 <= t < ks.drop_last().len() && #[trigger] rest[j] == assignment_line(
                        ks.drop_last()[t],
                        m[ks.drop_last()[t]],
                    );
                assert(p[j] == rest[j]);
                assert(ks[t] == ks.drop_last()[t]);
            } else {
                assert(p[j] == assignment_line(ks[ks.len() - 1], m[ks[ks.len() - 1]]));
            }
        }
    }
}

proof fn lemma_pending_has(ks: Seq<Seq<char>>, m: Map<Seq<char>, Seq<char>>, ls: Seq<Seq<char>>, t: int)
    requires
        0 <= t < ks.len(),
        !assigns(ls, ks[t]),
    ensures
        exists|j: int|
            0 <= j < pending_lines(ks, m, ls).len() && #[trigger] pending_lines(ks, m, ls)[j]
                == assignment_line(ks[t], m[ks[t]]),
    decreases ks.len(),
{
    let p = pending_lines(ks, m, ls);
    let rest = pending_lines(ks.drop_last(), m, ls);
    if t < ks.len() - 1 {
        assert(ks.drop_last()[t] == ks[t]);
        lemma_pending_has(ks.drop_last(), m, ls, t);
        let j = choose|j: int|
            0 <= j < rest.len() && #[trigger] rest[j] == assignment_line(ks.drop_last()[t], m[ks.drop_last()[t]]);
        assert(p[j] == rest[j]);
    } else {
        assert(p[rest.len() as int] == assignment_line(ks[t], m[ks[t]]));
    }
}

proof fn lemma_pending_none(ks: Seq<Seq<char>>, m: Map<Seq<char>, Seq<char>>, ls: Seq<Seq<char>>)
    requires
        forall|t: int| 0 <= t < ks.len() ==> assigns(ls, #[trigger] ks[t]),
    ensures
        pending_lines(ks, m, ls) == Seq::<Seq<char>>::empty(),
    decreases ks.len(),
{
    if ks.len() > 0 {
        assert(assigns(ls, ks[ks.len() - 1]));
        assert forall|t: int| 0 <= t < ks.drop_last().len() implies assigns(ls, #[trigger] ks.drop_last()[t]) by {
            assert(ks.drop_last()[t] == ks[t]);
        }
        lemma_pending_none(ks.drop_last(), m, ls);
    }
}

proof fn lemma_strip_crs_assignment(k: Seq<char>, v: Seq<char>)
    requires
        k.len() > 0,
    ensures
        strip_crs(assignment_line(k, v)) == assignment_line(k, strip_crs(v)),
    decreases v.len(),
{
    let l = assignment_line(k, v);
    if v.len() > 0 && v.last() == '\r' {
        assert(l.drop_last() == assignment_line(k, v.drop_last()));
        lemma_strip_crs_assignment(k, v.drop_last());
    } else if v.len() > 0 {
        assert(l.last() == v.last());
    } else {
        assert(l.last() == '=');
    }
}

/// An assignment line of a key of `m` assigns that key again once read back,
/// and reconciling it again gives it unchanged.
proof fn lemma_assignment_stable(k: Seq<char>, m: Map<Seq<char>, Seq<char>>)
    requires
        is_valid_key(k),
        m.contains_key(k),
    ensures
        assignment_key(strip_crs(assignment_line(k, m[k]))) == Some(k),
        rewrite_line(strip_crs(assignment_line(k, m[k])), m) == assignment_line(k, m[k]),
{
    lemma_strip_crs_assignment(k, m[k]);
    lemma_assignment_key_of_line(k, strip_crs(m[k]));
}

proof fn lemma_assignment_no_newline(k: Seq<char>, v: Seq<char>)
    requires
        is_valid_key(k),
        no_newline(v),
    ensures
        no_newline(assignment_line(k, v)),
{
    let zl = assignment_line(k, v);
    assert forall|q: int| 0 <= q < zl.len() implies #[trigger] zl[q] != '\n' by {
        if q < k.len() {
            assert(zl[q] == k[q]);
            if q > 0 {
                assert(is_key_char(k[q]));
            }
        } else if q > k.len() {
            assert(zl[q] == v[q - k.len() - 1]);
        }
    }
}

/// The cleaned lines of a text hold no newline and end in no carriage return.
proof fn lemma_clean_lines(s: Seq<char>)
    ensures
        forall|i: int|
            0 <= i < clean_lines(s).len() ==> no_newline(#[trigger] clean_lines(s)[i]) && strip_crs(
                clean_lines(s)[i],
            ) == clean_lines(s)[i],
{
    lemma_lines_no_newline(s, 0, 0);
    assert forall|i: int| 0 <= i < clean_lines(s).len() implies no_newline(#[trigger] clean_lines(s)[i])
        && strip_crs(clean_lines(s)[i]) == clean_lines(s)[i] by {
        let raw = lines_of(s)[i];
        lemma_strip_crs(raw);
        let c = clean_lines(s)[i];
        assert(c == strip_crs(raw));
        assert forall|q: int| 0 <= q < c.len() implies #[trigger] c[q] != '\n' by {
            assert(c[q] == raw[q]);
        }
    }
}

/// Reconciling the same values twice gives the same document as reconciling
/// them once: no key is appended twice and no line changes again. This holds
/// for valid keys and single-line values.
pub proof fn lemma_reconcile_idempotent(existing: Seq<char>, m: EnvMap)
    requires
        m.wf(),
        valid_keys(m),
        single_line_values(m),
    ensures
        reconciled_text(reconciled_text(existing, m), m) == reconciled_text(existing, m),
{
    m.lemma_wf();
    let mv = m@;
    let ks = m.key_seq();
    let first_lines = clean_lines(existing);
    let rewritten = first_lines.map_values(|l: Seq<char>| rewrite_line(l, mv));
    let pending = pending_lines(ks, mv, first_lines);
    let z = rewritten + pending;
    lemma_clean_lines(existing);
    lemma_pending_shape(ks, mv, first_lines);
    assert forall|i: int| 0 <= i < z.len() implies no_newline(#[trigger] z[i]) && rewrite_line(
        strip_crs(z[i]),
        mv,
    ) == z[i] by {
        if i < rewritten.len() {
            let l = first_lines[i];
            assert(z[i] == rewrite_line(l, mv));
            if assignment_key(l) is Some && mv.contains_key(assignment_key(l)->0) {
                let k = assignment_key(l)->0;
                let t = choose|t: int| 0 <= t < ks.len() && ks[t] == k;
                assert(is_valid_key(ks[t]));
                lemma_assignment_stable(k, mv);
                lemma_assignment_no_newline(k, mv[k]);
            } else {
                assert(strip_crs(l) == l);
            }
        } else {
            let j = i - rewritten.len();
            assert(z[i] == pending[j]);
            let t = choose|t: int| 0 <= t < ks.len() && #[trigger] pending[j] == assignment_line(ks[t], mv[ks[t]]);
            let k = ks[t];
            assert(is_valid_key(k));
            lemma_assignment_stable(k, mv);
            lemma_assignment_no_newline(k, mv[k]);
        }
    }
    lemma_lines_of_render(z);
    let second_lines = clean_lines(render(z));
    assert forall|i: int| 0 <= i < z.len() implies #[trigger] second_lines[i] == strip_crs(z[i]) by {
        lemma_strip_crs(z[i]);
    }
    assert(second_lines.len() == z.len());
    let rewritten_again = second_lines.map_values(|l: Seq<char>| rewrite_line(l, mv));
    assert(rewritten_again == z);
    assert forall|t: int| 0 <= t < ks.len() implies assigns(second_lines, #[trigger] ks[t]) by {
        let k = ks[t];
        lemma_assignment_stable(k, mv);
        if assigns(first_lines, k) {
            let i = choose|i: int| 0 <= i < first_lines.len() && assignment_key(#[trigger] first_lines[i]) == Some(k);
            assert(z[i] == assignment_line(k, mv[k]));
            assert(second_lines[i] == strip_crs(z[i]));
        } else {
            lemma_pending_has(ks, mv, first_lines, t);
            let j = choose|j: int| 0 <= j < pending.len() && #[trigger] pending[j] == assignment_line(k, mv[k]);
            assert(z[rewritten.len() + j] == pending[j]);
            assert(second_lines[rewritten.len() + j] == strip_crs(z[rewritten.len() + j]));
        }
    }
    lemma_pending_none(ks, mv, second_lines);
    assert(reconciled_lines(render(z), m) == rewritten_again + Seq::<Seq<char>>::empty());
    assert(rewritten_again + Seq::<Seq<char>>::empty() == z);
}

/// After reconciliation every key of `m` has a line `key=value` with its
/// value, either in place of a line that assigned it or appended. (There is
/// more than one such line where the existing document assigned the key more
/// than once: each of those lines is replaced.)
pub proof fn lemma_reconciled_holds_values(existing: Seq<char>, m: EnvMap, k: Seq<char>)
    requires
        m.wf(),
        m@.contains_key(k),
    ensures
        exists|i: int|
            0 <= i < reconciled_lines(existing, m).len() && #[trigger] reconciled_lines(existing, m)[i]
                == assignment_line(k, m@[k]),
{
    m.lemma_wf();
    let ls = clean_lines(existing);
    let rewritten = ls.map_values(|l: Seq<char>| rewrite_line(l, m@));
    let all = reconciled_lines(existing, m);
    if assigns(ls, k) {
        let i = choose|i: int| 0 <= i < ls.len() && assignment_key(#[trigger] ls[i]) == Some(k);
        assert(all[i] == rewritten[i]);
        assert(all[i] == assignment_line(k, m@[k]));
    } else {
        assert(m.key_seq().contains(k));
        let t = choose|t: int| 0 <= t < m.key_seq().len() && m.key_seq()[t] == k;
        lemma_pending_has(m.key_seq(), m@, ls, t);
        let pending = pending_lines(m.key_seq(), m@, ls);
        let j = choose|j: int| 0 <= j < pending.len() && #[trigger] pending[j] == assignment_line(k, m@[k]);
        assert(all[rewritten.len() + j] == pending[j]);
    }
}

/// A freshly written document is left as it is by reconciling the same
/// values into it, for valid keys and single-line values.
pub proof fn lemma_written_is_reconciled(m: EnvMap)
    requires
        m.wf(),
        valid_keys(m),
        single_line_values(m),
    ensures
        reconciled_text(written_text(m), m) == written_text(m),
{
    m.lemma_wf();
    let mv = m@;
    let ks = m.key_seq();
    let f = fresh_lines(m);
    assert forall|i: int| 0 <= i < f.len() implies no_newline(#[trigger] f[i]) && rewrite_line(
        strip_crs(f[i]),
        mv,
    ) == f[i] && assignment_key(strip_crs(f[i])) == Some(ks[i]) by {
        let k = ks[i];
        assert(is_valid_key(k));
        assert(mv.contains_key(k));
        lemma_assignment_stable(k, mv);
        lemma_assignment_no_newline(k, mv[k]);
    }
    lemma_lines_of_render(f);
    let ls = clean_lines(written_text(m));
    assert forall|i: int| 0 <= i < f.len() implies #[trigger] ls[i] == strip_crs(f[i]) by {
        lemma_strip_crs(f[i]);
    }
    assert(ls.len() == f.len());
    assert(ls.map_values(|l: Seq<char>| rewrite_line(l, mv)) == f);
    assert forall|t: int| 0 <= t < ks.len() implies assigns(ls, #[trigger] ks[t]) by {
        assert(ls[t] == strip_crs(f[t]));
    }
    lemma_pending_none(ks, mv, ls);
    assert(reconciled_lines(written_text(m), m) == f + Seq::<Seq<char>>::empty());
    assert(f + Seq::<Seq<char>>::empty() == f);
}

/// What a reconciliation writes under `Update` or `Overwrite`: the fresh
/// document where no destination exists, else the reconciled one.
pub open spec fn outcome(existing: Option<Seq<char>>, m: EnvMap) -> Seq<char> {
    match existing {
        None => written_text(m),
        Some(e) => reconciled_text(e, m),
    }
}

/// Reconciling the same values a second time into the document that the
/// first reconciliation wrote gives that document again, byte for byte. This
/// holds for valid keys and single-line values.
pub proof fn lemma_update_idempotent(existing: Option<Seq<char>>, m: EnvMap)
    requires
        m.wf(),
        valid_keys(m),
        single_line_values(m),
    ensures
        reconciled_text(outcome(existing, m), m) == outcome(existing, m),
{
    match existing {
        None => lemma_written_is_reconciled(m),
        Some(e) => lemma_reconcile_idempotent(e, m),
    }
}

/// No value of `m` ends in a carriage return (splitting lines drops one
/// before a newline).
pub open spec fn values_without_final_cr(m: EnvMap) -> bool {
    forall|k: Seq<char>| #[trigger] m@.contains_key(k) ==> m@[k].len() == 0 || m@[k].last() != '\r'
}

proof fn lemma_trim_unchanged(s: Seq<char>)
    requires
        s.len() > 0 ==> !is_ws(s[0]) && !is_ws(s.last()),
    ensures
        trim(s) == s,
{
    assert(skip_ws(s, 0) == 0);
    if s.len() > 0 {
        assert(back_ws(s, s.len() as int, 0) == s.len());
    }
    assert(s.subrange(0, s.len() as int) == s);
}

proof fn lemma_first_eq_run(t: Seq<char>, i: int, j: int)
    requires
        0 <= i <= j < t.len(),
        forall|q: int| i <= q < j ==> #[trigger] t[q] != '=',
        t[j] == '=',
    ensures
        first_eq(t, i) == j,
    decreases j - i,
{
    if i < j {
        lemma_first_eq_run(t, i + 1, j);
    }
}

/// A valid key and any value, written as `key=value`, read back as that
/// key and value.
proof fn lemma_entry_of_line(k: Seq<char>, v: Seq<char>)
    requires
        is_valid_key(k),
    ensures
        entry_of(assignment_line(k, v)) == Some((k, v)),
{
    let l = assignment_line(k, v);
    let n = k.len() as int;
    assert(l[0] == k[0]);
    assert(skip_ws(l, 0) == 0);
    assert forall|q: int| 0 <= q < n implies #[trigger] l[q] != '=' by {
        assert(l[q] == k[q]);
        if q > 0 {
            assert(is_key_char(k[q]));
        }
    }
    lemma_first_eq_run(l, 0, n);
    assert(l.subrange(0, n) == k);
    if n > 1 {
        assert(is_key_char(k[n - 1]));
    }
    lemma_trim_unchanged(k);
    assert(l.subrange(n + 1, l.len() as int) == v);
}

proof fn lemma_parsed_prefix(
    f: Seq<Seq<char>>,
    ks: Seq<Seq<char>>,
    mv: Map<Seq<char>, Seq<char>>,
    j: int,
)
    requires
        0 <= j <= f.len(),
        f.len() == ks.len(),
        forall|i: int| 0 <= i < f.len() ==> entry_of(#[trigger] f[i]) == Some((ks[i], mv[ks[i]])),
    ensures
        parsed(f.take(j)) == Map::new(
            |k: Seq<char>| exists|t: int| 0 <= t < j && ks[t] == k,
            |k: Seq<char>| mv[k],
        ),
    decreases j,
{
    let next = Map::new(|k: Seq<char>| exists|t: int| 0 <= t < j && ks[t] == k, |k: Seq<char>| mv[k]);
    if j == 0 {
        assert(next == Map::<Seq<char>, Seq<char>>::empty());
    } else {
        let i = j - 1;
        lemma_parsed_prefix(f, ks, mv, i);
        assert(f.take(j).drop_last() == f.take(i));
        assert(f.take(j).last() == f[i]);
        assert(entry_of(f[i]) == Some((ks[i], mv[ks[i]])));
        let prev = Map::new(|k: Seq<char>| exists|t: int| 0 <= t < i && ks[t] == k, |k: Seq<char>| mv[k]);
        assert(parsed(f.take(j)) == prev.insert(ks[i], mv[ks[i]]));
        assert forall|k: Seq<char>| #[trigger] next.contains_key(k) == prev.insert(ks[i], mv[ks[i]]).contains_key(k) by {
            if next.contains_key(k) {
                let t = choose|t: int| 0 <= t < j && ks[t] == k;
                if t < i {
                    assert(prev.contains_key(k));
                }
            }
            if prev.contains_key(k) {
                let t = choose|t: int| 0 <= t < i && ks[t] == k;
                assert(next.contains_key(k));
            }
        }
        assert(next == prev.insert(ks[i], mv[ks[i]]));
    }
}

/// Writing a mapping afresh and reading the document back gives the mapping
/// again, and the keys that the document declares are the mapping's keys.
/// This holds for valid keys and for single-line values that do not end in
/// a carriage return.
pub proof fn lemma_write_round_trip(m: EnvMap)
    requires
        m.wf(),
        valid_keys(m),
        single_line_values(m),
        values_without_final_cr(m),
    ensures
        parsed(lines_of(written_text(m))) == m@,
        forall|k: Seq<char>| template_declares(written_text(m), k) <==> m@.contains_key(k),
{
    m.lemma_wf();
    let mv = m@;
    let ks = m.key_seq();
    let f = fresh_lines(m);
    assert forall|i: int| 0 <= i < f.len() implies no_newline(#[trigger] f[i]) && strip_cr(f[i])
        == f[i] && entry_of(f[i]) == Some((ks[i], mv[ks[i]])) && assignment_key(f[i]) == Some(
        ks[i],
    ) by {
        let k = ks[i];
        let v = mv[k];
        assert(is_valid_key(k));
        assert(mv.contains_key(k));
        assert(no_newline(v));
        let l = f[i];
        assert(l == assignment_line(k, v));
        assert forall|q: int| 0 <= q < l.len() implies #[trigger] l[q] != '\n' by {
            if q < k.len() {
                assert(l[q] == k[q]);
                if q > 0 {
                    assert(is_key_char(k[q]));
                }
            } else if q > k.len() {
                assert(l[q] == v[q - k.len() - 1]);
            }
        }
        if v.len() > 0 {
            assert(l.last() == v.last());
        } else {
            assert(l.last() == '=');
        }
        lemma_entry_of_line(k, v);
        lemma_assignment_key_of_line(k, v);
    }
    lemma_lines_of_render(f);
    assert(lines_of(written_text(m)) == f);
    let j = f.len() as int;
    lemma_parsed_prefix(f, ks, mv, j);
    assert(f.take(j) == f);
    let all = Map::new(|k: Seq<char>| exists|t: int| 0 <= t < j && ks[t] == k, |k: Seq<char>| mv[k]);
    assert forall|k: Seq<char>| #[trigger] all.contains_key(k) == mv.contains_key(k) by {
        if all.contains_key(k) {
            let t = choose|t: int| 0 <= t < j && ks[t] == k;
            assert(ks.contains(k));
        }
        if mv.contains_key(k) {
            assert(ks.contains(k));
            let t = choose|t: int| 0 <= t < ks.len() && ks[t] == k;
            assert(all.contains_key(k));
        }
    }
    assert(all == mv);
    assert forall|k: Seq<char>| template_declares(written_text(m), k) <==> mv.contains_key(k) by {
        if template_declares(written_text(m), k) {
            let i = choose|i: int| 0 <= i < f.len() && assignment_key(#[trigger] f[i]) == Some(k);
            assert(ks[i] == k);
            assert(ks.contains(k));
        }
        if mv.contains_key(k) {
            assert(ks.contains(k));
            let i = choose|i: int| 0 <= i < ks.len() && ks[i] == k;
            assert(assignment_key(f[i]) == Some(k));
        }
    }
}

/// Appends the line `key=value` and its newline.
fn push_assignment(out: &mut String, k: &str, v: &str)
    ensures
        final(out)@ == old(out)@ + assignment_line(k@, v@) + seq!['\n'],
{
    out.append(k);
    push_char(out, '=');
    out.append(v);
    push_char(out, '\n');
    assert(final(out)@ == old(out)@ + assignment_line(k@, v@) + seq!['\n']);
}

/// Writes resolved values into documents.
pub struct EnvHandler {}

impl EnvHandler {
    pub fn new() -> (r: EnvHandler)
        ensures
            r == (EnvHandler {  }),
    {
        EnvHandler {  }
    }

    /// The document for `values` alone: one line `key=value` per key, in
    /// lexicographic order of the keys, each ending in a newline.
    pub fn write_env_file(&self, values: &EnvMap) -> (r: String)
        requires
            values.wf(),
        ensures
            r@ == written_text(*values),
    {
        proof {
            values.lemma_wf();
        }
        let ghost ls = fresh_lines(*values);
        let mut out = String::new();
        let mut i: usize = 0;
        while i < values.len()
            invariant
                values.wf(),
                ls == fresh_lines(*values),
                i <= values.key_seq().len(),
                out@ == render(ls.take(i as int)),
                forall|j: int|
                    0 <= j < values.key_seq().len() ==> values@[#[trigger] values.key_seq()[j]]
                        == values.value_seq()[j],
            decreases values.key_seq().len() - i,
        {
            let ghost before = out@;
            push_assignment(&mut out, values.key_at(i).as_str(), values.value_at(i).as_str());
            proof {
                assert(values@[values.key_seq()[i as int]] == values.value_seq()[i as int]);
                assert(ls.take(i + 1) == ls.take(i as int).push(ls[i as int]));
                lemma_render_push(ls.take(i as int), ls[i as int]);
            }
            i += 1;
        }
        assert(ls.take(i as int) == ls);
        out
    }

    /// Reconciles `values` into the existing document `existing`: every line
    /// that assigns a key of `values`, commented out or not, becomes
    /// `key=value`; every other line is kept without the carriage returns at
    /// its end; the keys that no line assigns follow, one line each, in
    /// lexicographic order.
    pub fn overwrite_env_file(&self, existing: &str, values: &EnvMap) -> (r: String)
        requires
            values.wf(),
        ensures
            r@ == reconciled_text(existing@, *values),
    {
        proof {
            values.lemma_wf();
        }
        let ghost m = values@;
        let ghost ks = values.key_seq();
        let ghost raw = lines_of(existing@);
        let ghost ls = clean_lines(existing@);
        let ghost rw = ls.map_values(|l: Seq<char>| rewrite_line(l, m));
        let chars = to_chars(existing);
        let lines = split_lines(&chars);
        let n = values.len();
        let mut seen: Vec<bool> = Vec::new();
        let mut j: usize = 0;
        while j < n
            invariant
                n == ks.len(),
                j <= n,
                seen@.len() == j,
                forall|t: int| 0 <= t < j ==> !seen@[t],
            decreases n - j,
        {
            seen.push(false);
            j += 1;
        }
        let mut out = String::new();
        let mut i: usize = 0;
        while i < lines.len()
            invariant
                values.wf(),
                m == values@,
                ks == values.key_seq(),
                n == ks.len(),
                views(lines@) == raw,
                ls == clean_lines(existing@),
                raw == lines_of(existing@),
                rw == ls.map_values(|l: Seq<char>| rewrite_line(l, m)),
                i <= ls.len(),
                seen@.len() == n,
                out@ == render(rw.take(i as int)),
                forall|t: int| 0 <= t < n ==> (#[trigger] seen@[t] <==> assigns(ls.take(i as int), ks[t])),
                forall|t: int| 0 <= t < n ==> m[#[trigger] ks[t]] == values.value_seq()[t],
                forall|a: int, b: int| 0 <= a < n && 0 <= b < n && a != b ==> ks[a] != ks[b],
            decreases ls.len() - i,
        {
            let ghost before = out@;
            let line = strip_trailing_cr(&lines[i]);
            let ghost l = ls[i as int];
            assert(lines@[i as int]@ == raw[i as int]);
            assert(line@ == l);
            proof {
                assert forall|t: int| 0 <= t < n implies assigns(ls.take(i + 1), #[trigger] ks[t]) == (
                assigns(ls.take(i as int), ks[t]) || assignment_key(l) == Some(ks[t])) by {
                    lemma_assigns_step(ls, i as int, ks[t]);
                }
            }
            match find_assignment_key(&line) {
                Some((a, b)) => {
                    let key = string_of(&copy_range(&line, a, b));
                    match values.find(key.as_str()) {
                        Some(p) => {
                            push_assignment(&mut out, key.as_str(), values.value_at(p).as_str());
                            seen.set(p, true);
                            proof {
                                assert(rw[i as int] == assignment_line(key@, m[key@]));
                                assert forall|t: int| 0 <= t < n implies (#[trigger] seen@[t]
                                    <==> assigns(ls.take(i + 1), ks[t])) by {
                                    if t != p {
                                        assert(ks[t] != ks[p as int]);
                                    }
                                }
                            }
                        },
                        None => {
                            push_chars(&mut out, &line);
                            push_char(&mut out, '\n');
                            proof {
                                assert(rw[i as int] == l);
                                assert forall|t: int| 0 <= t < n implies (#[trigger] seen@[t]
                                    <==> assigns(ls.take(i + 1), ks[t])) by {
                                    assert(m.contains_key(ks[t]));
                                }
                            }
                        },
                    }
                },
                None => {
                    push_chars(&mut out, &line);
                    push_char(&mut out, '\n');
                    assert(rw[i as int] == l);
                },
            }
            proof {
                assert(out@ == before + rw[i as int] + seq!['\n']);
                assert(rw.take(i + 1) == rw.take(i as int).push(rw[i as int]));
                lemma_render_push(rw.take(i as int), rw[i as int]);
            }
            i += 1;
        }
        assert(ls.take(i as int) == ls);
        assert(rw.take(i as int) == rw);
        let mut j: usize = 0;
        while j < n
            invariant
                values.wf(),
                m == values@,
                ks == values.key_seq(),
                n == ks.len(),
                j <= n,
                seen@.len() == n,
                out@ == render(rw + pending_lines(ks.take(j as int), m, ls)),
                forall|t: int| 0 <= t < n ==> (#[trigger] seen@[t] <==> assigns(ls, ks[t])),
                forall|t: int| 0 <= t < n ==> m[#[trigger] ks[t]] == values.value_seq()[t],
            decreases n - j,
        {
            let ghost before = rw + pending_lines(ks.take(j as int), m, ls);
            assert(ks.take(j + 1).drop_last() == ks.take(j as int));
            assert(ks.take(j + 1).last() == ks[j as int]);
            if !seen[j] {
                push_assignment(&mut out, values.key_at(j).as_str(), values.value_at(j).as_str());
                proof {
                    let x = assignment_line(ks[j as int], m[ks[j as int]]);
                    assert(rw + pending_lines(ks.take(j + 1), m, ls) == before.push(x));
                    lemma_render_push(before, x);
                }
            }
            j += 1;
        }
        assert(ks.take(j as int) == ks);
        out
    }

    /// What a document sets, as `parsed` describes.
    pub fn parse_env_content(&self, content: &str) -> (r: EnvMap)
        ensures
            r.wf(),
            r@ == parsed(lines_of(content@)),
    {
        let chars = to_chars(content);
        let lines = split_lines(&chars);
        let ghost ls = lines_of(content@);
        let mut vars = EnvMap::new();
        let mut i: usize = 0;
        while i < lines.len()
            invariant
                views(lines@) == ls,
                i <= ls.len(),
                vars.wf(),
                vars@ == parsed(ls.take(i as int)),
            decreases ls.len() - i,
        {
            assert(lines@[i as int]@ == ls[i as int]);
            assert(ls.take(i + 1).drop_last() == ls.take(i as int));
            assert(ls.take(i + 1).last() == ls[i as int]);
            let line = &lines[i];
            let a = skip_ws_from(line, 0);
            if a < line.len() && line[a] != '#' {
                let mut e: usize = a;
                while e < line.len() && line[e] != '='
                    invariant
                        a <= e <= line@.len(),
                        first_eq(line@, a as int) == first_eq(line@, e as int),
                    decreases line@.len() - e,
                {
                    e += 1;
                }
                if e < line.len() {
                    let k = trim_chars(&copy_range(line, a, e));
                    if k.len() > 0 {
                        let v = copy_range(line, e + 1, line.len());
                        vars.insert(string_of(&k), string_of(&v));
                    }
                }
            }
            i += 1;
        }
        assert(ls.take(i as int) == ls);
        vars
    }

    /// How reconciling `values` into `existing` changes it: the number of
    /// lines replaced in place, and the number of lines appended.
    pub fn count_changes(&self, existing: &str, values: &EnvMap) -> (r: (usize, usize))
        requires
            values.wf(),
        ensures
            r.0 == replaced_count(clean_lines(existing@), values@),
            r.1 == pending_lines(values.key_seq(), values@, clean_lines(existing@)).len(),
    {
        proof {
            values.lemma_wf();
        }
        let ghost m = values@;
        let ghost ks = values.key_seq();
        let ghost raw = lines_of(existing@);
        let ghost ls = clean_lines(existing@);
        let chars = to_chars(existing);
        let lines = split_lines(&chars);
        let n = values.len();
        let mut seen: Vec<bool> = Vec::new();
        let mut j: usize = 0;
        while j < n
            invariant
                n == ks.len(),
                j <= n,
                seen@.len() == j,
                forall|t: int| 0 <= t < j ==> !seen@[t],
            decreases n - j,
        {
            seen.push(false);
            j += 1;
        }
        let mut updated: usize = 0;
        let mut i: usize = 0;
        while i < lines.len()
            invariant
                values.wf(),
                m == values@,
                ks == values.key_seq(),
                n == ks.len(),
                views(lines@) == raw,
                ls == clean_lines(existing@),
                raw == lines_of(existing@),
                i <= ls.len(),
                seen@.len() == n,
                updated == replaced_count(ls.take(i as int), m),
                updated <= i,
                forall|t: int| 0 <= t < n ==> (#[trigger] seen@[t] <==> assigns(ls.take(i as int), ks[t])),
                forall|a: int, b: int| 0 <= a < n && 0 <= b < n && a != b ==> ks[a] != ks[b],
            decreases ls.len() - i,
        {
            let line = strip_trailing_cr(&lines[i]);
            let ghost l = ls[i as int];
            assert(lines@[i as int]@ == raw[i as int]);
            assert(line@ == l);
            proof {
                assert(ls.take(i + 1).drop_last() == ls.take(i as int));
                assert(ls.take(i + 1).last() == l);
                assert forall|t: int| 0 <= t < n implies assigns(ls.take(i + 1), #[trigger] ks[t]) == (
                assigns(ls.take(i as int), ks[t]) || assignment_key(l) == Some(ks[t])) by {
                    lemma_assigns_step(ls, i as int, ks[t]);
                }
            }
            match find_assignment_key(&line) {
                Some((a, b)) => {
                    let key = string_of(&copy_range(&line, a, b));
                    match values.find(key.as_str()) {
                        Some(p) => {
                            updated += 1;
                            seen.set(p, true);
                            proof {
                                assert forall|t: int| 0 <= t < n implies (#[trigger] seen@[t]
                                    <==> assigns(ls.take(i + 1), ks[t])) by {
                                    if t != p {
                                        assert(ks[t] != ks[p as int]);
                                    }
                                }
                            }
                        },
                        None => {
                            proof {
                                assert forall|t: int| 0 <= t < n implies (#[trigger] seen@[t]
                                    <==> assigns(ls.take(i + 1), ks[t])) by {
                                    assert(m.contains_key(ks[t]));
                                }
                            }
                        },
                    }
                },
                None => {},
            }
            i += 1;
        }
        assert(ls.take(i as int) == ls);
        let mut appended: usize = 0;
        let mut j: usize = 0;
        while j < n
            invariant
                ks == values.key_seq(),
                n == ks.len(),
                j <= n,
                seen@.len() == n,
                appended == pending_lines(ks.take(j as int), m, ls).len(),
                appended <= j,
                forall|t: int| 0 <= t < n ==> (#[trigger] seen@[t] <==> assigns(ls, ks[t])),
            decreases n - j,
        {
            assert(ks.take(j + 1).drop_last() == ks.take(j as int));
            assert(ks.take(j + 1).last() == ks[j as int]);
            if !seen[j] {
                appended += 1;
            }
            j += 1;
        }
        assert(ks.take(j as int) == ks);
        (updated, appended)
    }

    /// Reconciles `values` into the destination under `strategy`. `existing`
    /// is the destination's content, or `None` where there is none. Fails
    /// exactly when the strategy is `Error` and the destination exists;
    /// otherwise returns the destination's new content.
    pub fn handle_env_file(
        &self,
        existing: Option<&str>,
        values: &EnvMap,
        strategy: Strategy,
    ) -> (r: Result<String, EnvError>)
        requires
            values.wf(),
        ensures
            r is Err <==> (existing is Some && strategy == Strategy::Error),
            r matches Err(e) ==> e == EnvError::DestinationExists,
            existing is None ==> (r matches Ok(s) && s@ == written_text(*values)),
            existing matches Some(e) ==> (strategy != Strategy::Error ==> (r matches Ok(s) && s@
                == reconciled_text(e@, *values))),
    {
        match existing {
            None => Ok(self.write_env_file(values)),
            Some(e) => match strategy {
                Strategy::Error => Err(EnvError::DestinationExists),
                Strategy::Update | Strategy::Overwrite => Ok(self.overwrite_env_file(e, values)),
            },
        }
    }
}

impl Default for EnvHandler {
    fn default() -> (r: EnvHandler)
        ensures
            r == (EnvHandler {  }),
    {
        EnvHandler::new()
    }
}

} // verus!
