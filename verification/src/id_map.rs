//! A small map from step ids to values.
use crate::graph::NodeId;
use vstd::prelude::*;

verus! {

/// A value for each of some step ids.
#[derive(Debug)]
pub struct IdMap<V> {
    entries: Vec<(NodeId, V)>,
}

/// The map that entries make, where later ones replace earlier ones.
pub open spec fn map_of<V>(entries: Seq<(NodeId, V)>) -> Map<Seq<char>, V>
    decreases entries.len(),
{
    if entries.len() == 0 {
        Map::empty()
    } else {
        map_of(entries.drop_last()).insert(entries.last().0@, entries.last().1)
    }
}

proof fn lemma_last_entry<V>(entries: Seq<(NodeId, V)>, i: int)
    requires
        0 <= i < entries.len(),
        forall|j: int| i < j < entries.len() ==> (#[trigger] entries[j]).0@ != entries[i].0@,
    ensures
        map_of(entries).contains_key(entries[i].0@),
        map_of(entries)[entries[i].0@] == entries[i].1,
    decreases entries.len(),
{
    if i < entries.len() - 1 {
        assert(entries[entries.len() - 1].0@ != entries[i].0@);
        lemma_last_entry(entries.drop_last(), i);
    }
}

proof fn lemma_no_entry<V>(entries: Seq<(NodeId, V)>, id: Seq<char>)
    requires
        forall|j: int| 0 <= j < entries.len() ==> (#[trigger] entries[j]).0@ != id,
    ensures
        !map_of(entries).contains_key(id),
    decreases entries.len(),
{
    if entries.len() > 0 {
        assert(entries[entries.len() - 1].0@ != id);
        lemma_no_entry(entries.drop_last(), id);
    }
}

impl<V> View for IdMap<V> {
    type V = Map<Seq<char>, V>;

    closed spec fn view(&self) -> Map<Seq<char>, V> {
        map_of(self.entries@)
    }
}

impl<V: Copy> Clone for IdMap<V> {
    fn clone(&self) -> (res: Self)
        ensures
            res@ == self@,
    {
        let mut entries: Vec<(NodeId, V)> = Vec::new();
        for k in 0..self.entries.len()
            invariant
                entries@ =~= self.entries@.take(k as int),
        {
            entries.push((self.entries[k].0.clone(), self.entries[k].1));
        }
        proof {
            assert(self.entries@.take(self.entries@.len() as int) =~= self.entries@);
        }
        IdMap { entries }
    }
}

impl<V: Copy> IdMap<V> {
    /// A map without entries.
    pub fn new() -> (res: Self)
        ensures
            res@ == Map::<Seq<char>, V>::empty(),
    {
        IdMap { entries: Vec::new() }
    }

    /// The value of an id.
    pub fn get(&self, id: &NodeId) -> (res: Option<V>)
        ensures
            res == (if self@.contains_key(id@) {
                Some(self@[id@])
            } else {
                None
            }),
    {
        let mut k: usize = self.entries.len();
        while k > 0
            invariant
                k <= self.entries@.len(),
                forall|j: int|
                    k <= j < self.entries@.len() ==> (#[trigger] self.entries@[j]).0@ != id@,
            decreases k,
        {
            if self.entries[k - 1].0.same(id) {
                proof {
                    lemma_last_entry(self.entries@, k - 1);
                }
                return Some(self.entries[k - 1].1);
            }
            k -= 1;
        }
        proof {
            lemma_no_entry(self.entries@, id@);
        }
        None
    }

    /// Gives an id a value, in place of the one it had.
    pub fn insert(&mut self, id: NodeId, value: V)
        ensures
            final(self)@ == old(self)@.insert(id@, value),
    {
        let ghost before = self.entries@;
        self.entries.push((id, value));
        proof {
            assert(self.entries@.drop_last() =~= before);
        }
    }

    /// How many ids have a value.
    pub fn len(&self) -> (res: usize)
        ensures
            res == self@.dom().len(),
            self@.dom().finite(),
    {
        let mut count: usize = 0;
        for k in 0..self.entries.len()
            invariant
                count <= k,
                count == map_of(self.entries@.take(k as int)).dom().len(),
                map_of(self.entries@.take(k as int)).dom().finite(),
        {
            let ghost upto = self.entries@.take(k as int);
            let ghost next = self.entries@.take(k + 1);
            let mut known = false;
            let mut j: usize = k;
            while j > 0 && !known
                invariant
                    j <= k < self.entries@.len(),
                    upto == self.entries@.take(k as int),
                    !known ==> forall|i: int|
                        j <= i < k ==> (#[trigger] upto[i]).0@ != self.entries@[k as int].0@,
                    known ==> map_of(upto).contains_key(self.entries@[k as int].0@),
                decreases j,
            {
                j -= 1;
                if self.entries[j].0.same(&self.entries[k].0) {
                    known = true;
                    proof {
                        lemma_last_entry(upto, j as int);
                    }
                }
            }
            proof {
                assert(next.drop_last() =~= upto);
                assert(map_of(next).dom() =~= map_of(upto).dom().insert(
                    self.entries@[k as int].0@,
                ));
                if !known {
                    lemma_no_entry(upto, self.entries@[k as int].0@);
                }
            }
            if !known {
                count += 1;
            }
        }
        proof {
            assert(self.entries@.take(self.entries@.len() as int) =~= self.entries@);
        }
        count
    }

    /// Whether no id has a value.
    pub fn is_empty(&self) -> (res: bool)
        ensures
            res == (self@ == Map::<Seq<char>, V>::empty()),
    {
        proof {
            if self.entries@.len() > 0 {
                assert(self@.contains_key(self.entries@.last().0@));
            }
        }
        self.entries.len() == 0
    }
}

} // verus!
