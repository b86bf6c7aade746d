//! The decisions around resolution: which keys to look up, under which
//! names, what a lookup's outcome changes, when missing keys fail the run,
//! and what a preview shows.

use vstd::prelude::*;
use vstd::string::StringExecFns;
use crate::envmap::EnvMap;
use crate::order::str_views;
use crate::secret_masker::{displayed, sensitive, SecretMasker};
use crate::text::{copy_range, string_of, to_chars, trim, trim_chars};

verus! {

/// Why a run stops before the destination is written.
#[derive(Debug)]
pub enum RunError {
    /// The parameter prefix does not start with `/`.
    InvalidPrefix,
    /// Keys that did not resolve while every key was required.
    MissingRequired(Vec<String>),
}

/// The pieces of `s` between commas, from position `i` on, where the current
/// piece began at `start`. There is always a last piece, empty or not.
pub open spec fn pieces_from(s: Seq<char>, i: int, start: int) -> Seq<Seq<char>>
    decreases s.len() - i,
{
    if i < 0 || i >= s.len() {
        seq![s.subrange(start, s.len() as int)]
    } else if s[i] == ',' {
        seq![s.subrange(start, i)] + pieces_from(s, i + 1, i + 1)
    } else {
        pieces_from(s, i + 1, start)
    }
}

/// The trimmed pieces that are not empty.
pub open spec fn kept_pieces(ps: Seq<Seq<char>>) -> Seq<Seq<char>>
    decreases ps.len(),
{
    if ps.len() == 0 {
        seq![]
    } else {
        let rest = kept_pieces(ps.drop_first());
        if trim(ps[0]).len() > 0 {
            seq![trim(ps[0])] + rest
        } else {
            rest
        }
    }
}

/// The keys that a comma-separated list names.
pub open spec fn ignore_keys_of(s: Seq<char>) -> Seq<Seq<char>> {
    kept_pieces(pieces_from(s, 0, 0))
}

proof fn lemma_kept_prepend(x: Seq<char>, rest: Seq<Seq<char>>)
    ensures
        kept_pieces(seq![x] + rest) == if trim(x).len() > 0 {
            seq![trim(x)] + kept_pieces(rest)
        } else {
            kept_pieces(rest)
        },
{
    assert((seq![x] + rest).drop_first() == rest);
    assert((seq![x] + rest)[0] == x);
}

/// The keys that a comma-separated list names, each trimmed, empty ones
/// left out.
pub fn ignore_list(s: &str) -> (r: Vec<String>)
    ensures
        str_views(r@) == ignore_keys_of(s@),
{
    let c = to_chars(s);
    let n = c.len();
    let mut r: Vec<String> = Vec::new();
    let mut i: usize = 0;
    let mut start: usize = 0;
    while i < n
        invariant
            n == c@.len(),
            c@ == s@,
            start <= i <= n,
            str_views(r@) + kept_pieces(pieces_from(s@, i as int, start as int)) == ignore_keys_of(s@),
        decreases n - i,
    {
        if c[i] == ',' {
            let piece = trim_chars(&copy_range(&c, start, i));
            proof {
                lemma_kept_prepend(s@.subrange(start as int, i as int), pieces_from(s@, i + 1, i + 1));
            }
            if piece.len() > 0 {
                let ghost before = r@;
                r.push(string_of(&piece));
                proof {
                    assert(str_views(r@) == str_views(before) + seq![piece@]);
                }
            }
            i += 1;
            start = i;
        } else {
            i += 1;
        }
    }
    let piece = trim_chars(&copy_range(&c, start, n));
    proof {
        lemma_kept_prepend(s@.subrange(start as int, n as int), Seq::empty());
        assert(pieces_from(s@, i as int, start as int) == seq![s@.subrange(start as int, n as int)]
            + Seq::<Seq<char>>::empty());
        assert(kept_pieces(Seq::<Seq<char>>::empty()) == Seq::<Seq<char>>::empty());
    }
    if piece.len() > 0 {
        let ghost before = r@;
        r.push(string_of(&piece));
        proof {
            assert(str_views(r@) == str_views(before) + seq![piece@]);
        }
    } else {
        assert(str_views(r@) + Seq::<Seq<char>>::empty() == str_views(r@));
    }
    r
}

/// Whether `k` is among `list`.
fn contains_key(list: &Vec<String>, k: &String) -> (r: bool)
    ensures
        r == str_views(list@).contains(k@),
{
    let mut i: usize = 0;
    while i < list.len()
        invariant
            i <= list@.len(),
            forall|j: int| 0 <= j < i ==> list@[j]@ != k@,
        decreases list@.len() - i,
    {
        if list[i] == *k {
            assert(str_views(list@)[i as int] == k@);
            return true;
        }
        i += 1;
    }
    proof {
        if str_views(list@).contains(k@) {
            let j = choose|j: int| 0 <= j < list@.len() && str_views(list@)[j] == k@;
            assert(list@[j]@ == k@);
        }
    }
    false
}

/// The template's keys that are not ignored, in their order.
pub fn keys_to_fetch(keys: &Vec<String>, ignore: &Vec<String>) -> (r: Vec<String>)
    ensures
        str_views(r@) == str_views(keys@).filter(|k: Seq<char>| !str_views(ignore@).contains(k)),
{
    let ghost ks = str_views(keys@);
    let ghost keep = |k: Seq<char>| !str_views(ignore@).contains(k);
    let mut r: Vec<String> = Vec::new();
    let mut i: usize = 0;
    while i < keys.len()
        invariant
            ks == str_views(keys@),
            keep == (|k: Seq<char>| !str_views(ignore@).contains(k)),
            i <= keys@.len(),
            str_views(r@) == ks.take(i as int).filter(keep),
        decreases keys@.len() - i,
    {
        assert(ks.take(i + 1).drop_last() == ks.take(i as int));
        assert(ks.take(i + 1).last() == keys@[i as int]@);
        let ghost t = ks.take(i + 1);
        proof {
            reveal_with_fuel(Seq::filter, 1);
            assert(t.filter(keep) == if keep(t.last()) {
                t.drop_last().filter(keep).push(t.last())
            } else {
                t.drop_last().filter(keep)
            });
        }
        if !contains_key(ignore, &keys[i]) {
            let ghost before = r@;
            r.push(keys[i].clone());
            proof {
                assert(str_views(r@) == str_views(before).push(keys@[i as int]@));
            }
        }
        i += 1;
    }
    assert(ks.take(i as int) == ks);
    r
}

/// Whether a parameter prefix is acceptable: it starts with `/`.
pub fn valid_prefix(prefix: &str) -> (r: bool)
    ensures
        r == (prefix@.len() > 0 && prefix@[0] == '/'),
{
    prefix.unicode_len() > 0 && prefix.get_char(0) == '/'
}

/// The name under which `key` is looked up: the prefix, then the key.
pub fn parameter_name(prefix: &str, key: &str) -> (r: String)
    ensures
        r@ == prefix@ + key@,
{
    let mut r = String::new();
    r.append(prefix);
    r.append(key);
    r
}

/// Records a lookup's outcome: a value joins the resolved values; a miss,
/// not found or failed alike, joins the missing keys.
pub fn record_lookup(
    values: &mut EnvMap,
    missing: &mut Vec<String>,
    key: String,
    found: Option<String>,
)
    requires
        old(values).wf(),
    ensures
        final(values).wf(),
        found matches Some(v) ==> final(values)@ == old(values)@.insert(key@, v@) && final(missing)@
            == old(missing)@,
        found is None ==> final(values)@ == old(values)@ && final(missing)@ == old(missing)@.push(key),
{
    match found {
        Some(v) => values.insert(key, v),
        None => missing.push(key),
    }
}

/// Fails with the missing keys exactly when every key is required and some
/// are missing.
pub fn check_required(missing: Vec<String>, require_all: bool) -> (r: Result<(), RunError>)
    ensures
        r is Err <==> require_all && missing@.len() > 0,
        r matches Err(e) ==> e matches RunError::MissingRequired(m) && m@ == missing@,
{
    if require_all && missing.len() > 0 {
        Err(RunError::MissingRequired(missing))
    } else {
        Ok(())
    }
}

/// The preview of resolved values: one line per key, in lexicographic
/// order, sensitive values masked unless `show_secrets`.
pub fn preview_lines(values: &EnvMap, show_secrets: bool) -> (r: Vec<String>)
    requires
        values.wf(),
    ensures
        r@.len() == values.key_seq().len(),
        forall|i: int|
            0 <= i < r@.len() ==> (#[trigger] r@[i])@ == displayed(
                values.key_seq()[i],
                values@[values.key_seq()[i]],
                show_secrets,
                sensitive(values.key_seq()[i]),
            ),
{
    proof {
        values.lemma_wf();
    }
    let masker = SecretMasker::new();
    let mut r: Vec<String> = Vec::new();
    let mut i: usize = 0;
    while i < values.len()
        invariant
            values.wf(),
            i <= values.key_seq().len(),
            r@.len() == i,
            forall|t: int| 0 <= t < values.key_seq().len() ==> values@[#[trigger] values.key_seq()[t]] == values.value_seq()[t],
            forall|t: int|
                0 <= t < i ==> (#[trigger] r@[t])@ == displayed(
                    values.key_seq()[t],
                    values@[values.key_seq()[t]],
                    show_secrets,
                    sensitive(values.key_seq()[t]),
                ),
        decreases values.key_seq().len() - i,
    {
        let line = masker.format_output(values.key_at(i).as_str(), values.value_at(i).as_str(), show_secrets);
        assert(values@[values.key_seq()[i as int]] == values.value_seq()[i as int]);
        r.push(line);
        i += 1;
    }
    r
}

} // verus!
