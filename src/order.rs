//! Lexicographic order on keys, and sorted vectors of distinct keys.

use vstd::prelude::*;
use crate::text::to_chars;

verus! {

/// `a` comes strictly before `b`, comparing characters by code point, a
/// proper prefix first.
pub open spec fn lex_lt(a: Seq<char>, b: Seq<char>) -> bool
    decreases a.len(),
{
    if a.len() == 0 {
        b.len() > 0
    } else if b.len() == 0 {
        false
    } else if a[0] != b[0] {
        (a[0] as u32) < (b[0] as u32)
    } else {
        lex_lt(a.drop_first(), b.drop_first())
    }
}

pub proof fn lemma_lex_irreflexive(a: Seq<char>)
    ensures
        !lex_lt(a, a),
    decreases a.len(),
{
    if a.len() > 0 {
        lemma_lex_irreflexive(a.drop_first());
    }
}

pub proof fn lemma_lex_transitive(a: Seq<char>, b: Seq<char>, c: Seq<char>)
    requires
        lex_lt(a, b),
        lex_lt(b, c),
    ensures
        lex_lt(a, c),
    decreases a.len(),
{
    if a.len() > 0 && b.len() > 0 && c.len() > 0 && a[0] == b[0] && b[0] == c[0] {
        lemma_lex_transitive(a.drop_first(), b.drop_first(), c.drop_first());
    }
}

pub proof fn lemma_lex_total(a: Seq<char>, b: Seq<char>)
    requires
        a != b,
    ensures
        lex_lt(a, b) || lex_lt(b, a),
    decreases a.len(),
{
    if a.len() > 0 && b.len() > 0 && a[0] == b[0] {
        if a.drop_first() == b.drop_first() {
            assert(a == seq![a[0]] + a.drop_first());
            assert(b == seq![b[0]] + b.drop_first());
        }
        lemma_lex_total(a.drop_first(), b.drop_first());
    } else if a.len() > 0 && b.len() > 0 {
        vstd::utf8::char_u32_cast(a[0], a[0] as u32);
        vstd::utf8::char_u32_cast(b[0], b[0] as u32);
        assert((a[0] as u32) != (b[0] as u32));
    } else if a.len() == 0 && b.len() == 0 {
        assert(a == b);
    }
}

/// Strictly increasing: sorted, with no key twice.
pub open spec fn sorted(s: Seq<Seq<char>>) -> bool {
    forall|i: int, j: int| 0 <= i < j < s.len() ==> lex_lt(#[trigger] s[i], #[trigger] s[j])
}

/// The character sequences that a vector of strings holds.
pub open spec fn str_views(v: Seq<String>) -> Seq<Seq<char>> {
    v.map_values(|k: String| k@)
}

pub proof fn lemma_sorted_distinct(s: Seq<Seq<char>>, i: int, j: int)
    requires
        sorted(s),
        0 <= i < s.len(),
        0 <= j < s.len(),
        i != j,
    ensures
        s[i] != s[j],
{
    if i < j {
        assert(lex_lt(s[i], s[j]));
    } else {
        assert(lex_lt(s[j], s[i]));
    }
    lemma_lex_irreflexive(s[i]);
}

/// Whether `a` comes strictly before `b`.
pub fn lex_less(a: &str, b: &str) -> (r: bool)
    ensures
        r == lex_lt(a@, b@),
{
    let x = to_chars(a);
    let y = to_chars(b);
    let mut i: usize = 0;
    proof {
        assert(a@.subrange(0, a@.len() as int) == a@);
        assert(b@.subrange(0, b@.len() as int) == b@);
    }
    while i < x.len() && i < y.len() && x[i] == y[i]
        invariant
            x@ == a@,
            y@ == b@,
            i <= x@.len(),
            i <= y@.len(),
            lex_lt(a@, b@) == lex_lt(a@.subrange(i as int, a@.len() as int), b@.subrange(
                i as int,
                b@.len() as int,
            )),
        decreases x@.len() - i,
    {
        proof {
            let sa = a@.subrange(i as int, a@.len() as int);
            let sb = b@.subrange(i as int, b@.len() as int);
            assert(sa.drop_first() == a@.subrange(i + 1, a@.len() as int));
            assert(sb.drop_first() == b@.subrange(i + 1, b@.len() as int));
        }
        i += 1;
    }
    if i == x.len() {
        i < y.len()
    } else if i == y.len() {
        false
    } else {
        (x[i] as u32) < (y[i] as u32)
    }
}

/// Where `k` stands, or would stand, in the sorted keys `v`: every key
/// before the position is smaller; `found` says whether the key at the
/// position is `k`; otherwise every key from the position on is larger.
pub fn locate(v: &Vec<String>, k: &str) -> (r: (usize, bool))
    requires
        sorted(str_views(v@)),
    ensures
        r.0 <= v@.len(),
        forall|j: int| 0 <= j < r.0 ==> lex_lt(#[trigger] v@[j]@, k@),
        r.1 ==> r.0 < v@.len() && v@[r.0 as int]@ == k@,
        !r.1 ==> forall|j: int| r.0 <= j < v@.len() ==> lex_lt(k@, #[trigger] v@[j]@),
        r.1 <==> exists|j: int| 0 <= j < v@.len() && #[trigger] v@[j]@ == k@,
{
    let mut i: usize = 0;
    while i < v.len() && lex_less(v[i].as_str(), k)
        invariant
            i <= v@.len(),
            sorted(str_views(v@)),
            forall|j: int| 0 <= j < i ==> lex_lt(#[trigger] v@[j]@, k@),
        decreases v@.len() - i,
    {
        i += 1;
    }
    let found = i < v.len() && !lex_less(k, v[i].as_str());
    proof {
        if found {
            if v@[i as int]@ != k@ {
                lemma_lex_total(v@[i as int]@, k@);
            }
        }
        let ks = str_views(v@);
        if !found && i < v@.len() {
            assert(v@[i as int]@ != k@);
            lemma_lex_total(v@[i as int]@, k@);
            assert forall|j: int| i <= j < v@.len() implies lex_lt(k@, #[trigger] v@[j]@) by {
                if j > i {
                    assert(ks[i as int] == v@[i as int]@ && ks[j] == v@[j]@);
                    lemma_lex_transitive(k@, v@[i as int]@, v@[j]@);
                }
            }
        }
        if !found {
            assert forall|j: int| 0 <= j < v@.len() implies #[trigger] v@[j]@ != k@ by {
                lemma_lex_irreflexive(k@);
            }
        }
    }
    (i, found)
}

/// Adds `k` to the sorted keys `v` unless it is there already. Returns the
/// key's position and whether it was there.
pub fn insert_sorted(v: &mut Vec<String>, k: String) -> (r: (usize, bool))
    requires
        sorted(str_views(old(v)@)),
    ensures
        sorted(str_views(final(v)@)),
        r.0 < final(v)@.len(),
        final(v)@[r.0 as int]@ == k@,
        r.1 ==> final(v)@ == old(v)@,
        !r.1 ==> r.0 <= old(v)@.len() && final(v)@ == old(v)@.insert(r.0 as int, k),
        r.1 <==> str_views(old(v)@).contains(k@),
        forall|x: Seq<char>|
            str_views(final(v)@).contains(x) <==> (str_views(old(v)@).contains(x) || x == k@),
{
    let ghost ov = v@;
    let (pos, found) = locate(v, k.as_str());
    proof {
        if found {
            assert(str_views(ov)[pos as int] == k@);
        } else {
            assert forall|j: int| 0 <= j < ov.len() implies str_views(ov)[j] != k@ by {
                assert(str_views(ov)[j] == ov[j]@);
            }
        }
    }
    if found {
        return (pos, true);
    }
    v.insert(pos, k);
    proof {
        let nv = v@;
        let ks = str_views(nv);
        let os = str_views(ov);
        assert(ks == os.insert(pos as int, k@));
        assert forall|i: int, j: int| 0 <= i < j < ks.len() implies lex_lt(
            #[trigger] ks[i],
            #[trigger] ks[j],
        ) by {
            if j < pos {
            } else if i < pos && j == pos {
                assert(ks[i] == ov[i]@);
            } else if i < pos {
                assert(ks[i] == os[i] && ks[j] == os[j - 1]);
            } else if i == pos {
                assert(ks[j] == ov[j - 1]@);
            } else {
                assert(ks[i] == os[i - 1] && ks[j] == os[j - 1]);
            }
        }
        assert forall|x: Seq<char>| ks.contains(x) <==> (os.contains(x) || x == k@) by {
            if ks.contains(x) {
                let i = choose|i: int| 0 <= i < ks.len() && ks[i] == x;
                if i < pos {
                    assert(os[i] == x);
                } else if i > pos {
                    assert(os[i - 1] == x);
                }
            }
            if os.contains(x) {
                let i = choose|i: int| 0 <= i < os.len() && os[i] == x;
                if i < pos {
                    assert(ks[i] == x);
                } else {
                    assert(ks[i + 1] == x);
                }
            }
            if x == k@ {
                assert(ks[pos as int] == x);
            }
        }
    }
    (pos, false)
}

} // verus!
