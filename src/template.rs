//! The assignment grammar shared by template scanning and reconciliation,
//! and the extraction of the keys that a template declares.

use vstd::prelude::*;
use crate::order::{insert_sorted, str_views, sorted};
use crate::text::{copy_range, is_ws, lines_of, skip_ws, skip_ws_from, split_lines, string_of, to_chars, views};

verus! {

/// A character that may begin a key: an upper-case ASCII letter or `_`.
pub open spec fn is_key_start(c: char) -> bool {
    ('A' as u32 <= c as u32 <= 'Z' as u32) || c == '_'
}

/// A character that may continue a key: also an ASCII digit.
pub open spec fn is_key_char(c: char) -> bool {
    is_key_start(c) || ('0' as u32 <= c as u32 <= '9' as u32)
}

/// A key is an upper-case identifier, `[A-Z_][A-Z0-9_]*`.
pub open spec fn is_valid_key(k: Seq<char>) -> bool {
    k.len() > 0 && is_key_start(k[0]) && forall|i: int| 0 < i < k.len() ==> is_key_char(#[trigger] k[i])
}

/// The first position from `i` on that holds no key character.
pub open spec fn skip_key(l: Seq<char>, i: int) -> int
    decreases l.len() - i,
{
    if 0 <= i < l.len() && is_key_char(l[i]) {
        skip_key(l, i + 1)
    } else {
        i
    }
}

/// The key that a line assigns: after leading whitespace, an optional `#`,
/// whitespace, a key, whitespace, then `=`. A commented-out assignment
/// counts too.
pub open spec fn assignment_key(l: Seq<char>) -> Option<Seq<char>> {
    let a = skip_ws(l, 0);
    let after_hash = if a < l.len() && l[a] == '#' {
        a + 1
    } else {
        a
    };
    let key_begin = skip_ws(l, after_hash);
    if key_begin < l.len() && is_key_start(l[key_begin]) {
        let key_end = skip_key(l, key_begin + 1);
        let eq_pos = skip_ws(l, key_end);
        if eq_pos < l.len() && l[eq_pos] == '=' {
            Some(l.subrange(key_begin, key_end))
        } else {
            None
        }
    } else {
        None
    }
}

/// Some line of `text` assigns `k`.
pub open spec fn template_declares(text: Seq<char>, k: Seq<char>) -> bool {
    exists|i: int| 0 <= i < lines_of(text).len() && assignment_key(#[trigger] lines_of(text)[i]) == Some(k)
}

proof fn lemma_skip_key_run(l: Seq<char>, i: int, j: int)
    requires
        0 <= i <= j <= l.len(),
        forall|q: int| i <= q < j ==> is_key_char(#[trigger] l[q]),
        j == l.len() || !is_key_char(l[j]),
    ensures
        skip_key(l, i) == j,
    decreases j - i,
{
    if i < j {
        lemma_skip_key_run(l, i + 1, j);
    }
}

/// A valid key followed by `=` is an assignment of that key, whatever
/// follows.
pub proof fn lemma_assignment_key_of_line(k: Seq<char>, w: Seq<char>)
    requires
        is_valid_key(k),
    ensures
        assignment_key(k + seq!['='] + w) == Some(k),
{
    let l = k + seq!['='] + w;
    let n = k.len() as int;
    assert(l[0] == k[0]);
    assert(!is_ws(l[0]));
    assert(skip_ws(l, 0) == 0);
    assert(l[n] == '=');
    assert forall|q: int| 1 <= q < n implies is_key_char(#[trigger] l[q]) by {
        assert(l[q] == k[q]);
    }
    lemma_skip_key_run(l, 1, n);
    assert(skip_ws(l, n) == n);
    assert(l.subrange(0, n) == k);
}

proof fn lemma_skip_key_chars(l: Seq<char>, i: int)
    requires
        0 <= i <= l.len(),
    ensures
        i <= skip_key(l, i) <= l.len(),
        forall|q: int| i <= q < skip_key(l, i) ==> is_key_char(#[trigger] l[q]),
    decreases l.len() - i,
{
    if i < l.len() && is_key_char(l[i]) {
        lemma_skip_key_chars(l, i + 1);
    }
}

/// What a line assigns is a valid key.
pub proof fn lemma_assigned_key_valid(l: Seq<char>)
    requires
        assignment_key(l) is Some,
    ensures
        is_valid_key(assignment_key(l)->0),
{
    let a = skip_ws(l, 0);
    let after_hash = if a < l.len() && l[a] == '#' {
        a + 1
    } else {
        a
    };
    let key_begin = skip_ws(l, after_hash);
    crate::text::lemma_skip_ws_bounds(l, 0);
    crate::text::lemma_skip_ws_bounds(l, after_hash);
    lemma_skip_key_chars(l, key_begin + 1);
    let k = assignment_key(l)->0;
    let key_end = skip_key(l, key_begin + 1);
    assert(k == l.subrange(key_begin, key_end));
    assert forall|i: int| 0 < i < k.len() implies is_key_char(#[trigger] k[i]) by {
        assert(k[i] == l[key_begin + i]);
    }
}

fn skip_key_from(l: &Vec<char>, i: usize) -> (r: usize)
    requires
        i <= l@.len(),
    ensures
        i <= r <= l@.len(),
        r == skip_key(l@, i as int),
{
    let mut j = i;
    while j < l.len() && ((('A' as u32) <= (l[j] as u32) && (l[j] as u32) <= ('Z' as u32)) || l[j]
        == '_' || (('0' as u32) <= (l[j] as u32) && (l[j] as u32) <= ('9' as u32)))
        invariant
            i <= j <= l@.len(),
            skip_key(l@, i as int) == skip_key(l@, j as int),
        decreases l@.len() - j,
    {
        j += 1;
    }
    j
}

/// Where the key that a line assigns stands in it, as `assignment_key`
/// describes.
pub fn find_assignment_key(l: &Vec<char>) -> (r: Option<(usize, usize)>)
    ensures
        r is None <==> assignment_key(l@) is None,
        r matches Some((a, b)) ==> a <= b <= l@.len() && assignment_key(l@) == Some(
            l@.subrange(a as int, b as int),
        ),
{
    let n = l.len();
    let a = skip_ws_from(l, 0);
    let after_hash = if a < n && l[a] == '#' {
        a + 1
    } else {
        a
    };
    let key_begin = skip_ws_from(l, after_hash);
    if key_begin < n && ((('A' as u32) <= (l[key_begin] as u32) && (l[key_begin] as u32) <= ('Z' as u32)) || l[key_begin]
        == '_') {
        let key_end = skip_key_from(l, key_begin + 1);
        let eq_pos = skip_ws_from(l, key_end);
        if eq_pos < n && l[eq_pos] == '=' {
            Some((key_begin, key_end))
        } else {
            None
        }
    } else {
        None
    }
}

/// Extracts the keys that a template declares.
pub struct TemplateParser {}

impl TemplateParser {
    pub fn new() -> (r: TemplateParser)
        ensures
            r == (TemplateParser {  }),
    {
        TemplateParser {  }
    }

    /// The keys that lines of `content` assign, commented out or not, each
    /// once, in lexicographic order.
    pub fn parse_template(&self, content: &str) -> (r: Vec<String>)
        ensures
            sorted(str_views(r@)),
            forall|k: Seq<char>| str_views(r@).contains(k) <==> template_declares(content@, k),
            forall|i: int, j: int|
                0 <= i < r@.len() && 0 <= j < r@.len() && r@[i]@ == r@[j]@ ==> i == j,
            forall|i: int| 0 <= i < r@.len() ==> is_valid_key(#[trigger] r@[i]@),
    {
        let chars = to_chars(content);
        let lines = split_lines(&chars);
        let ghost ls = lines_of(content@);
        let mut keys: Vec<String> = Vec::new();
        let mut i: usize = 0;
        while i < lines.len()
            invariant
                views(lines@) == ls,
                ls == lines_of(content@),
                i <= lines@.len(),
                sorted(str_views(keys@)),
                forall|k: Seq<char>|
                    str_views(keys@).contains(k) <==> exists|j: int|
                        0 <= j < i && assignment_key(#[trigger] ls[j]) == Some(k),
            decreases lines@.len() - i,
        {
            assert(ls[i as int] == lines@[i as int]@);
            match find_assignment_key(&lines[i]) {
                Some((a, b)) => {
                    let key = string_of(&copy_range(&lines[i], a, b));
                    insert_sorted(&mut keys, key);
                    assert forall|k: Seq<char>|
                        str_views(keys@).contains(k) <==> exists|j: int|
                            0 <= j < i + 1 && assignment_key(#[trigger] ls[j]) == Some(k) by {
                        if exists|j: int| 0 <= j < i + 1 && assignment_key(#[trigger] ls[j]) == Some(k) {
                            let j = choose|j: int| 0 <= j < i + 1 && assignment_key(#[trigger] ls[j]) == Some(k);
                            if j < i {
                            }
                        }
                    }
                },
                None => {
                    assert forall|k: Seq<char>|
                        str_views(keys@).contains(k) <==> exists|j: int|
                            0 <= j < i + 1 && assignment_key(#[trigger] ls[j]) == Some(k) by {
                        if exists|j: int| 0 <= j < i + 1 && assignment_key(#[trigger] ls[j]) == Some(k) {
                            let j = choose|j: int| 0 <= j < i + 1 && assignment_key(#[trigger] ls[j]) == Some(k);
                            if j < i {
                            }
                        }
                    }
                },
            }
            i += 1;
        }
        proof {
            assert forall|i: int| 0 <= i < keys@.len() implies is_valid_key(#[trigger] keys@[i]@) by {
                let k = keys@[i]@;
                assert(str_views(keys@)[i] == k);
                assert(str_views(keys@).contains(k));
                let j = choose|j: int| 0 <= j < ls.len() && assignment_key(#[trigger] ls[j]) == Some(k);
                lemma_assigned_key_valid(ls[j]);
            }
            assert forall|i: int, j: int|
                0 <= i < keys@.len() && 0 <= j < keys@.len() && keys@[i]@ == keys@[j]@ implies i == j by {
                if i != j {
                    crate::order::lemma_sorted_distinct(str_views(keys@), i, j);
                }
            }
        }
        keys
    }
}

impl Default for TemplateParser {
    fn default() -> (r: TemplateParser)
        ensures
            r == (TemplateParser {  }),
    {
        TemplateParser::new()
    }
}

} // verus!
