//! A key to optional value mapping with unique keys, kept in insertion order.
use vstd::prelude::*;

use crate::load::PairView;

verus! {

broadcast use vstd::string::group_string_axioms;

/// The mapping that inserting `ps` in order builds: a later pair overwrites
/// an earlier one with the same key.
pub open spec fn fold_pairs(ps: Seq<PairView>) -> Map<Seq<char>, Option<Seq<char>>>
    decreases ps.len(),
{
    if ps.len() == 0 {
        Map::empty()
    } else {
        fold_pairs(ps.drop_last()).insert(ps.last().0, ps.last().1)
    }
}

/// No two pairs of `ps` share a key.
pub open spec fn keys_unique(ps: Seq<PairView>) -> bool {
    forall|i: int, j: int| 0 <= i < j < ps.len() ==> ps[i].0 != ps[j].0
}

/// A key is in the fold exactly when some pair has it.
pub proof fn lemma_fold_contains(ps: Seq<PairView>, k: Seq<char>)
    ensures
        fold_pairs(ps).contains_key(k) <==> exists|i: int| 0 <= i < ps.len() && ps[i].0 == k,
    decreases ps.len(),
{
    if ps.len() > 0 {
        lemma_fold_contains(ps.drop_last(), k);
        if exists|i: int| 0 <= i < ps.drop_last().len() && ps.drop_last()[i].0 == k {
            let i = choose|i: int| 0 <= i < ps.drop_last().len() && ps.drop_last()[i].0 == k;
            assert(ps[i].0 == k);
        }
        if exists|i: int| 0 <= i < ps.len() && ps[i].0 == k {
            let i = choose|i: int| 0 <= i < ps.len() && ps[i].0 == k;
            if i < ps.len() - 1 {
                assert(ps.drop_last()[i].0 == k);
            }
        }
    }
}

/// With unique keys, the fold maps each pair's key to that pair's value.
pub proof fn lemma_fold_at(ps: Seq<PairView>, i: int)
    requires
        keys_unique(ps),
        0 <= i < ps.len(),
    ensures
        fold_pairs(ps).contains_key(ps[i].0),
        fold_pairs(ps)[ps[i].0] == ps[i].1,
    decreases ps.len(),
{
    if i < ps.len() - 1 {
        lemma_fold_at(ps.drop_last(), i);
        assert(ps.drop_last()[i] == ps[i]);
    }
}

/// With unique keys, replacing the value of the pair at `i` is inserting it.
pub proof fn lemma_fold_update(ps: Seq<PairView>, i: int, v: Option<Seq<char>>)
    requires
        keys_unique(ps),
        0 <= i < ps.len(),
    ensures
        fold_pairs(ps.update(i, (ps[i].0, v))) == fold_pairs(ps).insert(ps[i].0, v),
    decreases ps.len(),
{
    let k = ps[i].0;
    let qs = ps.update(i, (k, v));
    if i == ps.len() - 1 {
        assert(qs.drop_last() =~= ps.drop_last());
        assert(fold_pairs(qs) =~= fold_pairs(ps).insert(k, v));
    } else {
        assert(qs.drop_last() =~= ps.drop_last().update(i, (k, v)));
        lemma_fold_update(ps.drop_last(), i, v);
        assert(ps.last().0 != k);
        assert(fold_pairs(qs) =~= fold_pairs(ps).insert(k, v));
    }
}

/// With unique keys, the fold has one key for each pair.
pub proof fn lemma_fold_len(ps: Seq<PairView>)
    requires
        keys_unique(ps),
    ensures
        fold_pairs(ps).dom().finite(),
        fold_pairs(ps).len() == ps.len(),
    decreases ps.len(),
{
    if ps.len() > 0 {
        let init = ps.drop_last();
        assert(keys_unique(init));
        lemma_fold_len(init);
        lemma_fold_contains(init, ps.last().0);
        assert(!fold_pairs(init).contains_key(ps.last().0));
    }
}

/// A mapping from keys to optional values. Each key appears once; the pairs
/// keep the order in which their keys were first inserted.
pub struct PairMap {
    entries: Vec<(String, Option<String>)>,
}

impl PairMap {
    /// The pairs, in order.
    pub closed spec fn pairs(&self) -> Seq<PairView> {
        self.entries.deep_view()
    }

    pub open spec fn wf(&self) -> bool {
        keys_unique(self.pairs())
    }
}

impl View for PairMap {
    type V = Map<Seq<char>, Option<Seq<char>>>;

    open spec fn view(&self) -> Map<Seq<char>, Option<Seq<char>>> {
        fold_pairs(self.pairs())
    }
}

impl PairMap {
    /// The empty mapping.
    pub fn new() -> (r: PairMap)
        ensures
            r.wf(),
            r.pairs() == Seq::<PairView>::empty(),
            r@ == Map::<Seq<char>, Option<Seq<char>>>::empty(),
    {
        let r = PairMap { entries: Vec::new() };
        assert(r.pairs() =~= Seq::<PairView>::empty());
        r
    }

    /// The position of the pair with key `key`, if there is one.
    fn find(&self, key: &String) -> (r: Option<usize>)
        ensures
            match r {
                Some(i) => i < self.pairs().len() && self.pairs()[i as int].0 == key@,
                None => forall|i: int| 0 <= i < self.pairs().len() ==> self.pairs()[i].0 != key@,
            },
    {
        let mut i: usize = 0;
        while i < self.entries.len()
            invariant
                i <= self.entries@.len(),
                forall|j: int| 0 <= j < i ==> self.pairs()[j].0 != key@,
            decreases self.entries@.len() - i,
        {
            if self.entries[i].0 == *key {
                return Some(i);
            }
            i = i + 1;
        }
        None
    }

    /// Sets the value of `key`, replacing the value it had.
    pub fn insert(&mut self, key: String, value: Option<String>)
        requires
            old(self).wf(),
        ensures
            final(self).wf(),
            final(self)@ == old(self)@.insert(key@, value.deep_view()),
            old(self)@.contains_key(key@) ==> final(self).pairs().len() == old(self).pairs().len()
                && forall|i: int|
                0 <= i < old(self).pairs().len() ==> #[trigger] final(self).pairs()[i] == if old(
                    self,
                ).pairs()[i].0 == key@ {
                    (key@, value.deep_view())
                } else {
                    old(self).pairs()[i]
                },
            !old(self)@.contains_key(key@) ==> final(self).pairs() == old(self).pairs().push(
                (key@, value.deep_view()),
            ),
    {
        let ghost ps = self.pairs();
        let ghost kv = (key@, value.deep_view());
        proof {
            lemma_fold_contains(ps, key@);
        }
        match self.find(&key) {
            Some(i) => {
                self.entries.set(i, (key, value));
                proof {
                    assert(self.pairs() =~= ps.update(i as int, kv));
                    lemma_fold_update(ps, i as int, kv.1);
                }
            },
            None => {
                self.entries.push((key, value));
                proof {
                    assert(self.pairs() =~= ps.push(kv));
                    assert(self.pairs().drop_last() =~= ps);
                }
            },
        }
    }

    /// The value of `key`, if the mapping holds it.
    pub fn get(&self, key: &str) -> (r: Option<&Option<String>>)
        requires
            self.wf(),
        ensures
            match r {
                Some(v) => self@.contains_key(key@) && self@[key@] == v.deep_view(),
                None => !self@.contains_key(key@),
            },
    {
        let k = key.to_owned();
        proof {
            lemma_fold_contains(self.pairs(), key@);
        }
        match self.find(&k) {
            Some(i) => {
                proof {
                    lemma_fold_at(self.pairs(), i as int);
                }
                Some(&self.entries[i].1)
            },
            None => None,
        }
    }

    /// The number of keys.
    pub fn len(&self) -> (r: usize)
        requires
            self.wf(),
        ensures
            self@.dom().finite(),
            r == self@.len(),
            r == self.pairs().len(),
    {
        proof {
            lemma_fold_len(self.pairs());
        }
        self.entries.len()
    }

    /// The pairs, in order.
    pub fn entries(&self) -> (r: &Vec<(String, Option<String>)>)
        ensures
            r.deep_view() == self.pairs(),
    {
        &self.entries
    }

    /// The mapping that inserting `pairs` in order builds.
    pub fn from_pairs(pairs: Vec<(String, Option<String>)>) -> (r: PairMap)
        ensures
            r.wf(),
            r@ == fold_pairs(pairs.deep_view()),
    {
        let ghost ps = pairs.deep_view();
        let ghost orig = pairs@;
        let n = pairs.len();
        let mut front = pairs;
        let mut rest: Vec<(String, Option<String>)> = Vec::new();
        // Move the pairs over back to front, so that popping them again
        // yields them front to back.
        while front.len() > 0
            invariant
                n == orig.len(),
                front@ == orig.take(front@.len() as int),
                rest@.len() == n - front@.len(),
                forall|j: int| 0 <= j < rest@.len() ==> rest@[j] == orig[n - 1 - j],
            decreases front@.len(),
        {
            let pair = front.pop().unwrap();
            rest.push(pair);
        }
        let mut m = PairMap::new();
        let mut i: usize = 0;
        while i < n
            invariant
                n == ps.len(),
                n == orig.len(),
                ps == orig.map(|_j: int, p: (String, Option<String>)| p.deep_view()),
                i <= n,
                rest@.len() == n - i,
                forall|j: int| 0 <= j < n - i ==> rest@[j] == orig[n - 1 - j],
                m.wf(),
                m@ == fold_pairs(ps.take(i as int)),
            decreases n - i,
        {
            let pair = rest.pop().unwrap();
            proof {
                assert(ps.take(i + 1).drop_last() =~= ps.take(i as int));
                assert(pair.deep_view() == ps[i as int]);
            }
            m.insert(pair.0, pair.1);
            i = i + 1;
        }
        assert(ps.take(n as int) =~= ps);
        m
    }
}

} // verus!
