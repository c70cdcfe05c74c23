//! The name-to-text mapping used for page metadata, partials and
//! composed templates: a list of key/value pairs with unique keys,
//! where inserting an existing key replaces its value (last wins).

use vstd::prelude::*;

use crate::bytes::{bytes_eq, copy_bytes};

verus! {

/// Value of `k` in the pair list `m`: the first pair with that key.
pub open spec fn lookup(m: Seq<(Seq<u8>, Seq<u8>)>, k: Seq<u8>) -> Option<Seq<u8>>
    decreases m.len(),
{
    if m.len() == 0 {
        None
    } else if m[0].0 == k {
        Some(m[0].1)
    } else {
        lookup(m.drop_first(), k)
    }
}

/// `m` with `k` bound to `v`: the first pair with key `k` is replaced,
/// or a new pair is appended when the key is absent.
pub open spec fn insert_pair(m: Seq<(Seq<u8>, Seq<u8>)>, k: Seq<u8>, v: Seq<u8>) -> Seq<
    (Seq<u8>, Seq<u8>),
>
    decreases m.len(),
{
    if m.len() == 0 {
        seq![(k, v)]
    } else if m[0].0 == k {
        seq![(k, v)] + m.drop_first()
    } else {
        seq![m[0]] + insert_pair(m.drop_first(), k, v)
    }
}

/// No two pairs share a key.
pub open spec fn keys_unique(m: Seq<(Seq<u8>, Seq<u8>)>) -> bool {
    forall|i: int, j: int|
        0 <= i < m.len() && 0 <= j < m.len() && i != j ==> (#[trigger] m[i]).0 != (
        #[trigger] m[j]).0
}

/// Inserting binds `k` to `v` and leaves every other key's value alone.
pub proof fn lemma_lookup_insert(m: Seq<(Seq<u8>, Seq<u8>)>, k: Seq<u8>, v: Seq<u8>, q: Seq<u8>)
    ensures
        lookup(insert_pair(m, k, v), q) == if q == k {
            Some(v)
        } else {
            lookup(m, q)
        },
    decreases m.len(),
{
    let out = insert_pair(m, k, v);
    if m.len() == 0 {
        assert(out == seq![(k, v)]);
        assert(out.len() == 1 && out[0] == (k, v));
        if q == k {
            assert(lookup(out, q) == Some(v));
        } else {
            assert(lookup(out, q) == lookup(out.drop_first(), q));
            assert(out.drop_first() =~= Seq::<(Seq<u8>, Seq<u8>)>::empty());
            assert(lookup(out, q) is None);
        }
    } else if m[0].0 == k {
        assert(out == seq![(k, v)] + m.drop_first());
        assert(out.len() > 0 && out[0] == (k, v));
        if q == k {
            assert(lookup(out, q) == Some(v));
        } else {
            assert(lookup(out, q) == lookup(out.drop_first(), q));
            assert(out.drop_first() =~= m.drop_first());
            assert(lookup(m, q) == lookup(m.drop_first(), q));
        }
    } else {
        assert(out == seq![m[0]] + insert_pair(m.drop_first(), k, v));
        assert(out.len() > 0 && out[0] == m[0]);
        assert(out.drop_first() =~= insert_pair(m.drop_first(), k, v));
        lemma_lookup_insert(m.drop_first(), k, v, q);
        if q == m[0].0 {
            assert(lookup(out, q) == Some(m[0].1));
            assert(lookup(m, q) == Some(m[0].1));
        } else {
            assert(lookup(out, q) == lookup(out.drop_first(), q));
            assert(lookup(m, q) == lookup(m.drop_first(), q));
        }
    }
}

/// A mapping from names to texts, keys unique, last insertion winning.
pub struct Metadata {
    pairs: Vec<(Vec<u8>, Vec<u8>)>,
}

impl View for Metadata {
    type V = Seq<(Seq<u8>, Seq<u8>)>;

    closed spec fn view(&self) -> Seq<(Seq<u8>, Seq<u8>)> {
        Seq::new(self.pairs@.len(), |i: int| (self.pairs@[i].0@, self.pairs@[i].1@))
    }
}

impl Metadata {
    pub open spec fn wf(&self) -> bool {
        keys_unique(self@)
    }

    pub fn new() -> (r: Metadata)
        ensures
            r@ == Seq::<(Seq<u8>, Seq<u8>)>::empty(),
            r.wf(),
    {
        let r = Metadata { pairs: Vec::new() };
        proof {
            assert(r@ =~= Seq::<(Seq<u8>, Seq<u8>)>::empty());
        }
        r
    }

    pub fn len(&self) -> (r: usize)
        ensures
            r == self@.len(),
    {
        self.pairs.len()
    }

    /// Bind `k` to `v`, replacing the binding when the key is present.
    #[verifier::loop_isolation(false)]
    pub fn insert(&mut self, k: Vec<u8>, v: Vec<u8>)
        ensures
            final(self)@ == insert_pair(old(self)@, k@, v@),
            old(self).wf() ==> final(self).wf(),
    {
        let ghost m = self@;
        let mut i: usize = 0;
        while i < self.pairs.len()
            invariant
                i <= self.pairs@.len(),
                m == self@,
                self@.len() == self.pairs@.len(),
                forall|n: int| 0 <= n < i ==> (#[trigger] m[n]).0 != k@,
            decreases self.pairs@.len() - i,
        {
            proof {
                assert(self@[i as int] == (self.pairs@[i as int].0@, self.pairs@[i as int].1@));
            }
            if bytes_eq(&self.pairs[i].0, &k) {
                self.pairs.set(i, (k, v));
                proof {
                    assert(self@ =~= m.update(i as int, (k@, v@)));
                    lemma_insert_found(m, k@, v@, i as int);
                    if keys_unique(m) {
                        assert(keys_unique(self@)) by {
                            assert(forall|n: int|
                                0 <= n < self@.len() ==> (#[trigger] self@[n]).0 == m[n].0);
                        }
                    }
                }
                return ;
            }
            i = i + 1;
        }
        let ghost klen = m.len() as int;
        self.pairs.push((k, v));
        proof {
            assert(self@ =~= m.push((k@, v@)));
            lemma_insert_absent(m, k@, v@);
            if keys_unique(m) {
                assert(keys_unique(self@)) by {
                    assert(forall|n: int| 0 <= n < klen ==> #[trigger] self@[n] == m[n]);
                    assert(self@[klen] == (k@, v@));
                }
            }
        }
    }

    /// The value bound to `k`, copied out, if the key is present.
    #[verifier::loop_isolation(false)]
    pub fn get(&self, k: &Vec<u8>) -> (r: Option<Vec<u8>>)
        ensures
            match lookup(self@, k@) {
                Some(v) => r matches Some(out) && out@ == v,
                None => r is None,
            },
    {
        let mut i: usize = 0;
        proof {
            assert(self@.skip(0) =~= self@);
        }
        while i < self.pairs.len()
            invariant
                i <= self.pairs@.len(),
                lookup(self@, k@) == lookup(self@.skip(i as int), k@),
            decreases self.pairs@.len() - i,
        {
            proof {
                assert(self@[i as int] == (self.pairs@[i as int].0@, self.pairs@[i as int].1@));
                assert(self@.skip(i as int)[0] == self@[i as int]);
            }
            if bytes_eq(&self.pairs[i].0, k) {
                return Some(copy_bytes(&self.pairs[i].1));
            }
            proof {
                assert(self@.skip(i as int).drop_first() =~= self@.skip(i + 1));
            }
            i = i + 1;
        }
        proof {
            assert(self@.skip(i as int) =~= Seq::<(Seq<u8>, Seq<u8>)>::empty());
        }
        None
    }
}

/// When the first occurrence of `k` is at index `i`, inserting replaces
/// exactly that pair.
pub proof fn lemma_insert_found(m: Seq<(Seq<u8>, Seq<u8>)>, k: Seq<u8>, v: Seq<u8>, i: int)
    requires
        0 <= i < m.len(),
        m[i].0 == k,
        forall|n: int| 0 <= n < i ==> (#[trigger] m[n]).0 != k,
    ensures
        insert_pair(m, k, v) == m.update(i, (k, v)),
    decreases i,
{
    if i == 0 {
        assert(insert_pair(m, k, v) == seq![(k, v)] + m.drop_first());
        assert(seq![(k, v)] + m.drop_first() =~= m.update(0, (k, v)));
    } else {
        assert(m.drop_first()[i - 1].0 == k);
        assert(forall|n: int| 0 <= n < i - 1 ==> (#[trigger] m.drop_first()[n]).0 == m[n + 1].0);
        lemma_insert_found(m.drop_first(), k, v, i - 1);
        assert(insert_pair(m, k, v) == seq![m[0]] + m.drop_first().update(i - 1, (k, v)));
        assert(seq![m[0]] + m.drop_first().update(i - 1, (k, v)) =~= m.update(i, (k, v)));
    }
}

/// When `k` is absent, inserting appends a new pair.
pub proof fn lemma_insert_absent(m: Seq<(Seq<u8>, Seq<u8>)>, k: Seq<u8>, v: Seq<u8>)
    requires
        forall|n: int| 0 <= n < m.len() ==> (#[trigger] m[n]).0 != k,
    ensures
        insert_pair(m, k, v) == m.push((k, v)),
    decreases m.len(),
{
    if m.len() == 0 {
        assert(insert_pair(m, k, v) =~= m.push((k, v)));
    } else {
        assert(forall|n: int|
            0 <= n < m.drop_first().len() ==> (#[trigger] m.drop_first()[n]).0 == m[n + 1].0);
        lemma_insert_absent(m.drop_first(), k, v);
        assert(insert_pair(m, k, v) == seq![m[0]] + m.drop_first().push((k, v)));
        assert(seq![m[0]] + m.drop_first().push((k, v)) =~= m.push((k, v)));
    }
}

} // verus!
