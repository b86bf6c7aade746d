//! Sensitivity classification of keys, and masking of their values for
//! display.

use vstd::prelude::*;
use vstd::string::StringExecFns;
use crate::text::{push_char, to_chars};

verus! {

/// What `str::to_lowercase` makes of a string.
pub uninterp spec fn lower_of(s: Seq<char>) -> Seq<char>;

/// Relies on `str::to_lowercase`: the lower-case form of `s`, which depends on
/// its characters alone.
#[verifier::external_body]
fn lowercase(s: &str) -> (r: String)
    ensures
        r@ == lower_of(s@),
{
    s.to_lowercase()
}

/// How many words the sensitive vocabulary holds.
pub const VOCABULARY_LEN: usize = 16;

/// The sensitive vocabulary, word by word.
pub open spec fn vocabulary(i: int) -> Seq<char> {
    if i == 0 {
        "password"@
    } else if i == 1 {
        "passwd"@
    } else if i == 2 {
        "pwd"@
    } else if i == 3 {
        "secret"@
    } else if i == 4 {
        "key"@
    } else if i == 5 {
        "token"@
    } else if i == 6 {
        "auth"@
    } else if i == 7 {
        "credential"@
    } else if i == 8 {
        "cred"@
    } else if i == 9 {
        "private"@
    } else if i == 10 {
        "secure"@
    } else if i == 11 {
        "salt"@
    } else if i == 12 {
        "hash"@
    } else if i == 13 {
        "signature"@
    } else if i == 14 {
        "cert"@
    } else {
        "certificate"@
    }
}

fn vocabulary_word(i: usize) -> (r: &'static str)
    requires
        i < VOCABULARY_LEN,
    ensures
        r@ == vocabulary(i as int),
{
    if i == 0 {
        "password"
    } else if i == 1 {
        "passwd"
    } else if i == 2 {
        "pwd"
    } else if i == 3 {
        "secret"
    } else if i == 4 {
        "key"
    } else if i == 5 {
        "token"
    } else if i == 6 {
        "auth"
    } else if i == 7 {
        "credential"
    } else if i == 8 {
        "cred"
    } else if i == 9 {
        "private"
    } else if i == 10 {
        "secure"
    } else if i == 11 {
        "salt"
    } else if i == 12 {
        "hash"
    } else if i == 13 {
        "signature"
    } else if i == 14 {
        "cert"
    } else {
        "certificate"
    }
}

/// `c` matches the vocabulary character `w`: exactly, or, where `folded`,
/// also as a case-insensitive pattern matches it under Unicode simple case
/// folding (an ASCII letter, its other case, and for `k` and `s` the Kelvin
/// sign and the long s).
pub open spec fn char_matches(c: char, w: char, folded: bool) -> bool {
    c == w || (folded && (('a' as u32 <= w as u32 <= 'z' as u32 && c as u32 == w as u32 - 32)
        || (w == 'k' && c as u32 == 0x212a) || (w == 's' && c as u32 == 0x17f)))
}

/// `w` occurs in `s` at position `p`.
pub open spec fn occurs_at(s: Seq<char>, w: Seq<char>, p: int, folded: bool) -> bool {
    0 <= p && p + w.len() <= s.len() && forall|q: int|
        0 <= q < w.len() ==> char_matches(#[trigger] s[p + q], w[q], folded)
}

/// `w` occurs somewhere in `s`.
pub open spec fn occurs(s: Seq<char>, w: Seq<char>, folded: bool) -> bool {
    exists|p: int| occurs_at(s, w, p, folded)
}

/// A lower-cased key is sensitive where a word of the vocabulary occurs in
/// it, either as a substring or as a case-insensitive pattern finds it
/// (which also finds the word between underscores or at either end).
pub open spec fn sensitive_lowercase(s: Seq<char>) -> bool {
    exists|i: int|
        0 <= i < VOCABULARY_LEN && (occurs(s, #[trigger] vocabulary(i), false) || occurs(
            s,
            vocabulary(i),
            true,
        ))
}

/// A key is sensitive where its lower-case form is.
pub open spec fn sensitive(key: Seq<char>) -> bool {
    sensitive_lowercase(lower_of(key))
}

/// The decimal digit `d`.
pub open spec fn digit(d: int) -> char {
    seq!['0', '1', '2', '3', '4', '5', '6', '7', '8', '9'][d]
}

/// The decimal notation of `n`.
pub open spec fn decimal(n: nat) -> Seq<char>
    decreases n,
{
    if n < 10 {
        seq![digit(n as int)]
    } else {
        decimal(n / 10).push(digit((n % 10) as int))
    }
}

/// What stands for a hidden value of `n` characters.
pub open spec fn mask_text(n: nat) -> Seq<char> {
    "****** ("@ + decimal(n) + " chars, hidden)"@
}

/// How a key and its value are displayed: `key=value`, unless the key is
/// sensitive and secrets are not revealed, where the value's place holds its
/// mask.
pub open spec fn displayed(key: Seq<char>, value: Seq<char>, reveal: bool, is_sensitive: bool) -> Seq<char> {
    if reveal || !is_sensitive {
        key + seq!['='] + value
    } else {
        key + seq!['='] + mask_text(value.len())
    }
}

fn char_matches_exec(c: char, w: char, folded: bool) -> (r: bool)
    ensures
        r == char_matches(c, w, folded),
{
    c == w || (folded && (('a' as u32 <= w as u32 && w as u32 <= 'z' as u32 && c as u32 == w as u32
        - 32) || (w == 'k' && c as u32 == 0x212a) || (w == 's' && c as u32 == 0x17f)))
}

fn occurs_exec(s: &Vec<char>, w: &Vec<char>, folded: bool) -> (r: bool)
    ensures
        r == occurs(s@, w@, folded),
{
    if w.len() > s.len() {
        proof {
            assert forall|p: int| !occurs_at(s@, w@, p, folded) by {}
        }
        return false;
    }
    let n = s.len();
    let last = n - w.len();
    let mut p: usize = 0;
    loop
        invariant
            w@.len() <= s@.len(),
            n == s@.len(),
            last == s@.len() - w@.len(),
            p <= last,
            forall|x: int| 0 <= x < p ==> !occurs_at(s@, w@, x, folded),
        decreases last - p,
    {
        let mut q: usize = 0;
        while q < w.len()
            invariant
                p <= last,
                last == s@.len() - w@.len(),
                p + w@.len() <= s@.len(),
                n == s@.len(),
                q <= w@.len(),
                forall|y: int| 0 <= y < q ==> char_matches(#[trigger] s@[p + y], w@[y], folded),
            ensures
                q <= w@.len(),
                forall|y: int| 0 <= y < q ==> char_matches(#[trigger] s@[p + y], w@[y], folded),
                q < w@.len() ==> !char_matches(s@[p + q], w@[q as int], folded),
            decreases w@.len() - q,
        {
            if !char_matches_exec(s[p + q], w[q], folded) {
                break;
            }
            q += 1;
        }
        if q == w.len() {
            assert(occurs_at(s@, w@, p as int, folded));
            return true;
        }
        assert(!char_matches(s@[p + q], w@[q as int], folded));
        assert(!occurs_at(s@, w@, p as int, folded));
        if p == last {
            proof {
                assert forall|x: int| !occurs_at(s@, w@, x, folded) by {
                    if 0 <= x <= p {
                    }
                }
            }
            return false;
        }
        p += 1;
    }
}

/// Decides which keys hold secrets and masks their values for display.
pub struct SecretMasker {}

impl SecretMasker {
    pub fn new() -> (r: SecretMasker)
        ensures
            r == (SecretMasker {  }),
    {
        SecretMasker {  }
    }

    /// Whether an already lower-cased key is sensitive.
    pub fn is_sensitive_lowercase(&self, key_lower: &str) -> (r: bool)
        ensures
            r == sensitive_lowercase(key_lower@),
    {
        let s = to_chars(key_lower);
        let mut i: usize = 0;
        while i < VOCABULARY_LEN
            invariant
                s@ == key_lower@,
                i <= VOCABULARY_LEN,
                forall|j: int|
                    0 <= j < i ==> !(occurs(s@, #[trigger] vocabulary(j), false) || occurs(
                        s@,
                        vocabulary(j),
                        true,
                    )),
            decreases VOCABULARY_LEN - i,
        {
            let w = to_chars(vocabulary_word(i));
            if occurs_exec(&s, &w, false) || occurs_exec(&s, &w, true) {
                return true;
            }
            i += 1;
        }
        false
    }

    /// Whether a key is sensitive: a word of the vocabulary occurs in its
    /// lower-case form.
    pub fn is_sensitive_key(&self, key: &str) -> (r: bool)
        ensures
            r == sensitive(key@),
    {
        let lower = lowercase(key);
        self.is_sensitive_lowercase(lower.as_str())
    }

    /// The mask that stands for `value`: it tells the number of characters
    /// and nothing else.
    pub fn mask_value(&self, value: &str) -> (r: String)
        ensures
            r@ == mask_text(value@.len()),
    {
        let n = value.unicode_len();
        let mut r = String::new();
        r.append("****** (");
        push_decimal(&mut r, n);
        r.append(" chars, hidden)");
        r
    }

    /// The line that displays `key` and `value`: the value is masked where
    /// the key is sensitive and `show_secrets` is false.
    pub fn format_output(&self, key: &str, value: &str, show_secrets: bool) -> (r: String)
        ensures
            r@ == displayed(key@, value@, show_secrets, sensitive(key@)),
    {
        let mut r = String::new();
        r.append(key);
        push_char(&mut r, '=');
        if show_secrets || !self.is_sensitive_key(key) {
            r.append(value);
        } else {
            let masked = self.mask_value(value);
            r.append(masked.as_str());
        }
        r
    }
}

/// Masking hides values: with secrets revealed, or for a key that is not
/// sensitive, the line shows the value verbatim; for a sensitive key with
/// secrets hidden, the line shows only the value's character count.
pub proof fn lemma_masking(key: Seq<char>, v: Seq<char>)
    ensures
        displayed(key, v, true, sensitive(key)) == key + seq!['='] + v,
        !sensitive(key) ==> displayed(key, v, false, sensitive(key)) == key + seq!['='] + v,
        sensitive(key) ==> displayed(key, v, false, sensitive(key)) == key + seq!['='] + mask_text(
            v.len(),
        ),
{
}

/// The characters a mask can hold.
pub open spec fn mask_char(c: char) -> bool {
    c == '*' || c == ' ' || c == '(' || c == ')' || c == ',' || c == 'c' || c == 'h' || c == 'a'
        || c == 'r' || c == 's' || c == 'i' || c == 'd' || c == 'e' || c == 'n' || ('0' as u32
        <= c as u32 <= '9' as u32)
}

proof fn lemma_digit(d: int)
    requires
        0 <= d < 10,
    ensures
        '0' as u32 <= digit(d) as u32 <= '9' as u32,
{
    let ds = seq!['0', '1', '2', '3', '4', '5', '6', '7', '8', '9'];
    assert(ds[0] == '0' && ds[1] == '1' && ds[2] == '2' && ds[3] == '3' && ds[4] == '4');
    assert(ds[5] == '5' && ds[6] == '6' && ds[7] == '7' && ds[8] == '8' && ds[9] == '9');
}

proof fn lemma_decimal_digits(n: nat)
    ensures
        forall|j: int| 0 <= j < decimal(n).len() ==> ('0' as u32 <= (#[trigger] decimal(n)[j]) as u32 <= '9' as u32),
    decreases n,
{
    if n >= 10 {
        lemma_decimal_digits(n / 10);
        lemma_digit((n % 10) as int);
        assert forall|j: int| 0 <= j < decimal(n).len() implies ('0' as u32 <= (#[trigger] decimal(
            n,
        )[j]) as u32 <= '9' as u32) by {
            if j < decimal(n / 10).len() {
                assert(decimal(n)[j] == decimal(n / 10)[j]);
            }
        }
    } else {
        lemma_digit(n as int);
    }
}

proof fn lemma_mask_chars(n: nat)
    ensures
        forall|j: int| 0 <= j < mask_text(n).len() ==> mask_char(#[trigger] mask_text(n)[j]),
{
    reveal_strlit("****** (");
    reveal_strlit(" chars, hidden)");
    let pre = "****** ("@;
    let post = " chars, hidden)"@;
    assert(pre =~= seq!['*', '*', '*', '*', '*', '*', ' ', '(']);
    assert(post =~= seq![' ', 'c', 'h', 'a', 'r', 's', ',', ' ', 'h', 'i', 'd', 'd', 'e', 'n', ')']);
    lemma_decimal_digits(n);
    let d = decimal(n);
    assert forall|j: int| 0 <= j < mask_text(n).len() implies mask_char(#[trigger] mask_text(n)[j]) by {
        if j < pre.len() {
            assert(mask_text(n)[j] == pre[j]);
        } else if j < pre.len() + d.len() {
            assert(mask_text(n)[j] == d[j - pre.len()]);
        } else {
            assert(mask_text(n)[j] == post[j - pre.len() - d.len()]);
        }
    }
}

/// For a sensitive key with secrets hidden, the line never holds the value
/// where some character of the value stands neither in the key, nor is `=`,
/// nor can stand in a mask.
pub proof fn lemma_masked_line_hides_value(key: Seq<char>, v: Seq<char>, q: int)
    requires
        sensitive(key),
        0 <= q < v.len(),
        !key.contains(v[q]),
        v[q] != '=',
        !mask_char(v[q]),
    ensures
        !occurs(displayed(key, v, false, sensitive(key)), v, false),
{
    let line = displayed(key, v, false, sensitive(key));
    let m = mask_text(v.len());
    assert(line == key + seq!['='] + m);
    lemma_mask_chars(v.len());
    if occurs(line, v, false) {
        let p = choose|p: int| occurs_at(line, v, p, false);
        assert(char_matches(line[p + q], v[q], false));
        let x = p + q;
        if x < key.len() {
            assert(line[x] == key[x]);
        } else if x == key.len() {
            assert(line[x] == '=');
        } else {
            assert(line[x] == m[x - key.len() - 1]);
        }
    }
}

/// For a sensitive key with secrets hidden, the line depends on the value's
/// length alone.
pub proof fn lemma_mask_depends_on_length(key: Seq<char>, v: Seq<char>, w: Seq<char>)
    requires
        v.len() == w.len(),
    ensures
        displayed(key, v, false, true) == displayed(key, w, false, true),
{
}

fn digit_char(d: usize) -> (c: char)
    requires
        d < 10,
    ensures
        c == digit(d as int),
{
    if d == 0 {
        '0'
    } else if d == 1 {
        '1'
    } else if d == 2 {
        '2'
    } else if d == 3 {
        '3'
    } else if d == 4 {
        '4'
    } else if d == 5 {
        '5'
    } else if d == 6 {
        '6'
    } else if d == 7 {
        '7'
    } else if d == 8 {
        '8'
    } else {
        '9'
    }
}

/// Appends the decimal notation of `n`.
fn push_decimal(out: &mut String, n: usize)
    ensures
        final(out)@ == old(out)@ + decimal(n as nat),
    decreases n,
{
    if n >= 10 {
        push_decimal(out, n / 10);
    }
    push_char(out, digit_char(n % 10));
    assert(final(out)@ == old(out)@ + decimal(n as nat));
}

impl Default for SecretMasker {
    fn default() -> (r: SecretMasker)
        ensures
            r == (SecretMasker {  }),
    {
        SecretMasker::new()
    }
}

} // verus!
