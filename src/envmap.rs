//! A mapping from keys to values, kept in lexicographic order of its keys.

use vstd::prelude::*;
use crate::order::{insert_sorted, lemma_sorted_distinct, locate, sorted, str_views};

verus! {

/// Keys mapped to values; the keys are kept distinct and in lexicographic
/// order, which is the order in which they are written out.
pub struct EnvMap {
    keys: Vec<String>,
    values: Vec<String>,
}

impl View for EnvMap {
    type V = Map<Seq<char>, Seq<char>>;

    open spec fn view(&self) -> Map<Seq<char>, Seq<char>> {
        Map::new(
            |k: Seq<char>| self.key_seq().contains(k),
            |k: Seq<char>| self.value_seq()[self.position(k)],
        )
    }
}

impl EnvMap {
    /// The keys, in order.
    pub closed spec fn key_seq(&self) -> Seq<Seq<char>> {
        str_views(self.keys@)
    }

    /// The values, in the order of their keys.
    pub closed spec fn value_seq(&self) -> Seq<Seq<char>> {
        str_views(self.values@)
    }

    pub closed spec fn wf(&self) -> bool {
        &&& self.keys@.len() == self.values@.len()
        &&& sorted(self.key_seq())
    }

    /// Where a key stands among the keys.
    pub open spec fn position(&self, k: Seq<char>) -> int {
        choose|i: int| 0 <= i < self.key_seq().len() && self.key_seq()[i] == k
    }

    pub proof fn lemma_wf(&self)
        requires
            self.wf(),
        ensures
            self.key_seq().len() == self.value_seq().len(),
            sorted(self.key_seq()),
            forall|i: int| 0 <= i < self.key_seq().len() ==> self.position(#[trigger] self.key_seq()[i]) == i,
            forall|i: int|
                0 <= i < self.key_seq().len() ==> self@[#[trigger] self.key_seq()[i]] == self.value_seq()[i],
            forall|k: Seq<char>| self@.contains_key(k) <==> self.key_seq().contains(k),
            self@.dom() == self.key_seq().to_set(),
    {
        assert forall|i: int| 0 <= i < self.key_seq().len() implies self.position(
            #[trigger] self.key_seq()[i],
        ) == i by {
            let k = self.key_seq()[i];
            assert(self.key_seq().contains(k));
            let p = self.position(k);
            if p != i {
                lemma_sorted_distinct(self.key_seq(), p, i);
            }
        }
        assert(self@.dom() == self.key_seq().to_set());
    }

    pub fn new() -> (r: EnvMap)
        ensures
            r.wf(),
            r@ == Map::<Seq<char>, Seq<char>>::empty(),
            r.key_seq().len() == 0,
    {
        let r = EnvMap { keys: Vec::new(), values: Vec::new() };
        assert(r@ == Map::<Seq<char>, Seq<char>>::empty());
        r
    }

    /// Maps `key` to `value`, replacing the value it had.
    pub fn insert(&mut self, key: String, value: String)
        requires
            old(self).wf(),
        ensures
            final(self).wf(),
            final(self)@ == old(self)@.insert(key@, value@),
            final(self).key_seq().len() == old(self).key_seq().len() + if old(self)@.contains_key(
                key@,
            ) {
                0int
            } else {
                1int
            },
    {
        let ghost o = *self;
        proof {
            o.lemma_wf();
        }
        let ghost kv = key@;
        let ghost vv = value@;
        let (pos, found) = insert_sorted(&mut self.keys, key);
        assert(found ==> self.keys@.len() == o.keys@.len());
        assert(!found ==> self.keys@.len() == o.keys@.len() + 1);
        if found {
            self.values.set(pos, value);
        } else {
            self.values.insert(pos, value);
        }
        proof {
            let n = *self;
            assert(n.wf());
            n.lemma_wf();
            if found {
                assert(n.key_seq() == o.key_seq());
                assert(n.value_seq() == o.value_seq().update(pos as int, vv));
            } else {
                assert(n.key_seq() == o.key_seq().insert(pos as int, kv));
                assert(n.value_seq() == o.value_seq().insert(pos as int, vv));
            }
            assert forall|k: Seq<char>| #[trigger] n@.contains_key(k) == o@.insert(kv, vv).contains_key(k) by {}
            assert forall|k: Seq<char>| n@.contains_key(k) implies #[trigger] n@[k] == o@.insert(kv, vv)[k] by {
                assert(n.key_seq().contains(k));
                let i = choose|i: int| 0 <= i < n.key_seq().len() && n.key_seq()[i] == k;
                assert(n@[n.key_seq()[i]] == n.value_seq()[i]);
                if k == kv {
                    if i != pos {
                        lemma_sorted_distinct(n.key_seq(), i, pos as int);
                    }
                } else {
                    if found {
                        assert(o.key_seq()[i] == k);
                        assert(o@[o.key_seq()[i]] == o.value_seq()[i]);
                    } else if i < pos {
                        assert(o.key_seq()[i] == k);
                        assert(o@[o.key_seq()[i]] == o.value_seq()[i]);
                    } else {
                        assert(o.key_seq()[i - 1] == k);
                        assert(o@[o.key_seq()[i - 1]] == o.value_seq()[i - 1]);
                    }
                }
            }
            assert(n@ == o@.insert(kv, vv));
        }
    }

    /// The value of `key`, if it has one.
    pub fn get(&self, key: &str) -> (r: Option<String>)
        requires
            self.wf(),
        ensures
            r is Some <==> self@.contains_key(key@),
            r matches Some(v) ==> v@ == self@[key@],
    {
        proof {
            self.lemma_wf();
        }
        let (pos, found) = locate(&self.keys, key);
        if found {
            assert(self.key_seq()[pos as int] == key@);
            Some(self.values[pos].clone())
        } else {
            proof {
                if self.key_seq().contains(key@) {
                    let i = choose|i: int| 0 <= i < self.key_seq().len() && self.key_seq()[i] == key@;
                    assert(self.keys@[i]@ == key@);
                }
            }
            None
        }
    }

    /// How many keys are mapped.
    pub fn len(&self) -> (r: usize)
        ensures
            r == self.key_seq().len(),
    {
        self.keys.len()
    }

    /// The keys, in lexicographic order.
    pub fn keys(&self) -> (r: Vec<String>)
        requires
            self.wf(),
        ensures
            str_views(r@) == self.key_seq(),
    {
        let mut r: Vec<String> = Vec::new();
        let mut i: usize = 0;
        while i < self.keys.len()
            invariant
                i <= self.keys@.len(),
                r@.len() == i,
                str_views(r@) == self.key_seq().take(i as int),
            decreases self.keys@.len() - i,
        {
            let k = self.keys[i].clone();
            assert(k@ == self.key_seq()[i as int]);
            let ghost before = r@;
            r.push(k);
            proof {
                assert(r@.len() == i + 1);
                assert(r@[i as int] == k);
                assert(str_views(r@)[i as int] == k@);
                assert(self.key_seq().take(i + 1)[i as int] == self.key_seq()[i as int]);
                assert forall|j: int| 0 <= j < i + 1 implies str_views(r@)[j] == self.key_seq().take(
                    i + 1,
                )[j] by {
                    if j < i {
                        assert(str_views(before)[j] == self.key_seq().take(i as int)[j]);
                    }
                }
                assert(str_views(r@) =~= self.key_seq().take(i + 1));
            }
            i += 1;
        }
        assert(self.key_seq().take(i as int) =~= self.key_seq());
        r
    }

    /// The key at position `i`.
    pub fn key_at(&self, i: usize) -> (r: &String)
        requires
            i < self.key_seq().len(),
        ensures
            r@ == self.key_seq()[i as int],
    {
        &self.keys[i]
    }

    /// The value of the key at position `i`.
    pub fn value_at(&self, i: usize) -> (r: &String)
        requires
            self.wf(),
            i < self.key_seq().len(),
        ensures
            r@ == self.value_seq()[i as int],
    {
        &self.values[i]
    }

    /// The position of `key` among the keys, if it is there.
    pub fn find(&self, key: &str) -> (r: Option<usize>)
        requires
            self.wf(),
        ensures
            r is Some <==> self@.contains_key(key@),
            r matches Some(i) ==> i < self.key_seq().len() && self.key_seq()[i as int] == key@,
    {
        proof {
            self.lemma_wf();
        }
        let (pos, found) = locate(&self.keys, key);
        if found {
            assert(self.key_seq()[pos as int] == key@);
            Some(pos)
        } else {
            proof {
                if self.key_seq().contains(key@) {
                    let i = choose|i: int| 0 <= i < self.key_seq().len() && self.key_seq()[i] == key@;
                    assert(self.keys@[i]@ == key@);
                }
            }
            None
        }
    }
}

} // verus!
