//! The node store interface the accumulator is built against: read one node by
//! its content hash, persist a batch atomically. One in-memory implementation
//! is provided; persistent backends implement the same trait.

use vstd::prelude::*;
use crate::error::AccumulatorError;
use crate::hash_value::HashValue;
use crate::node::{AccumulatorNode, NodeData, node_key, node_wf};

verus! {

/// Every entry carries a well-formed node stored under its own hash.
pub open spec fn entries_wf(entries: Seq<(HashValue, AccumulatorNode)>) -> bool {
    forall|i: int|
        0 <= i < entries.len() ==> node_wf(#[trigger] entries[i].1@) && entries[i].0@ == node_key(
            entries[i].1@,
        )
}

/// The map an association list denotes; when a key repeats, the earliest entry
/// wins, as a front-to-back scan would find it.
pub open spec fn entries_view(entries: Seq<(HashValue, AccumulatorNode)>) -> Map<Seq<u8>, NodeData>
    decreases entries.len(),
{
    if entries.len() == 0 {
        Map::empty()
    } else {
        entries_view(entries.skip(1)).insert(entries[0].0@, entries[0].1@)
    }
}

/// The first matching entry is the one the denoted map holds.
pub proof fn lemma_entries_view_first(entries: Seq<(HashValue, AccumulatorNode)>, i: int)
    requires
        0 <= i < entries.len(),
        forall|j: int| 0 <= j < i ==> entries[j].0@ != entries[i].0@,
    ensures
        entries_view(entries).contains_key(entries[i].0@),
        entries_view(entries)[entries[i].0@] == entries[i].1@,
    decreases entries.len(),
{
    if i > 0 {
        lemma_entries_view_first(entries.skip(1), i - 1);
        assert(entries.skip(1)[i - 1] == entries[i]);
        assert(forall|j: int|
            0 <= j < i - 1 ==> entries.skip(1)[j] == entries[j + 1] && entries[j + 1].0@
                != entries[i].0@);
    }
}

/// A key no entry carries is not in the denoted map.
pub proof fn lemma_entries_view_absent(entries: Seq<(HashValue, AccumulatorNode)>, key: Seq<u8>)
    requires
        forall|j: int| 0 <= j < entries.len() ==> (#[trigger] entries[j].0@) != key,
    ensures
        !entries_view(entries).contains_key(key),
    decreases entries.len(),
{
    if entries.len() > 0 {
        assert(forall|j: int|
            0 <= j < entries.len() - 1 ==> entries.skip(1)[j] == entries[j + 1]);
        lemma_entries_view_absent(entries.skip(1), key);
    }
}

/// Concatenation denotes the union in which the front list wins.
pub proof fn lemma_entries_view_concat(
    a: Seq<(HashValue, AccumulatorNode)>,
    b: Seq<(HashValue, AccumulatorNode)>,
)
    ensures
        entries_view(a + b) == entries_view(b).union_prefer_right(entries_view(a)),
    decreases a.len(),
{
    if a.len() == 0 {
        assert(a + b =~= b);
        assert(entries_view(b).union_prefer_right(entries_view(a)) =~= entries_view(b));
    } else {
        lemma_entries_view_concat(a.skip(1), b);
        assert((a + b).skip(1) =~= a.skip(1) + b);
        assert(entries_view(a + b) == entries_view(a.skip(1) + b).insert((a + b)[0].0@, (a + b)[0].1@));
        assert(entries_view(b).union_prefer_right(entries_view(a)) =~= entries_view(
            b,
        ).union_prefer_right(entries_view(a.skip(1))).insert(a[0].0@, a[0].1@));
    }
}

/// In a well-formed entry list every stored node is well formed.
pub proof fn lemma_entries_view_wf(entries: Seq<(HashValue, AccumulatorNode)>, key: Seq<u8>)
    requires
        entries_wf(entries),
        entries_view(entries).contains_key(key),
    ensures
        node_wf(entries_view(entries)[key]),
        node_key(entries_view(entries)[key]) == key,
    decreases entries.len(),
{
    if entries.len() > 0 {
        if entries[0].0@ == key {
        } else {
            assert(forall|j: int|
                0 <= j < entries.len() - 1 ==> entries.skip(1)[j] == entries[j + 1]);
            lemma_entries_view_wf(entries.skip(1), key);
        }
    }
}

/// The store interface of the accumulator: content-addressed reads and an
/// atomic batched write. The `nodes` map is the store's abstract state.
pub trait AccumulatorTreeStore: Sized {
    /// The persisted nodes, keyed by their own hash.
    spec fn nodes(&self) -> Map<Seq<u8>, NodeData>;

    /// Reads one persisted node by its content hash. Whatever is returned is
    /// well formed and keyed by its own hash: a store holds nothing else.
    fn get_node(&self, hash: &HashValue) -> (r: Option<AccumulatorNode>)
        ensures
            match r {
                Some(node) => self.nodes().contains_key(hash@) && node@ == self.nodes()[hash@]
                    && node_wf(node@) && node_key(node@) == hash@,
                None => !self.nodes().contains_key(hash@),
            },
    ;

    /// Durably persists a batch of nodes, each paired with its own hash,
    /// atomically: on failure the store is unchanged.
    fn put_nodes(&mut self, batch: &Vec<(HashValue, AccumulatorNode)>) -> (r: Result<
        (),
        AccumulatorError,
    >)
        requires
            entries_wf(batch@),
        ensures
            match r {
                Ok(_) => final(self).nodes() == old(self).nodes().union_prefer_right(
                    entries_view(batch@),
                ),
                Err(_) => final(self).nodes() == old(self).nodes(),
            },
    ;
}

/// An in-memory node store: a plain association list, for tests and for
/// rebuilding accumulators without a persistent backend.
pub struct MockAccumulatorStore {
    entries: Vec<(HashValue, AccumulatorNode)>,
}

impl MockAccumulatorStore {
    #[verifier::type_invariant]
    spec fn inv(self) -> bool {
        entries_wf(self.entries@)
    }

    pub fn new() -> (r: MockAccumulatorStore)
        ensures
            r.nodes() == Map::<Seq<u8>, NodeData>::empty(),
    {
        MockAccumulatorStore { entries: Vec::new() }
    }

    /// How many entries the store holds, repeated stores of one node counted
    /// once per write.
    pub fn len(&self) -> (r: usize)
        ensures
            r == self.spec_entries().len(),
    {
        self.entries.len()
    }

    /// The stored entries, for reasoning about the store's abstract state.
    pub closed spec fn spec_entries(&self) -> Seq<(HashValue, AccumulatorNode)> {
        self.entries@
    }
}

impl AccumulatorTreeStore for MockAccumulatorStore {
    closed spec fn nodes(&self) -> Map<Seq<u8>, NodeData> {
        entries_view(self.entries@)
    }

    fn get_node(&self, hash: &HashValue) -> (r: Option<AccumulatorNode>) {
        proof {
            use_type_invariant(self);
        }
        let n = self.entries.len();
        let mut i: usize = 0;
        while i < n
            invariant
                n == self.entries@.len(),
                i <= n,
                entries_wf(self.entries@),
                forall|j: int| 0 <= j < i ==> (#[trigger] self.entries@[j].0@) != hash@,
            decreases n - i,
        {
            if self.entries[i].0 == *hash {
                proof {
                    lemma_entries_view_first(self.entries@, i as int);
                }
                return Some(self.entries[i].1);
            }
            i = i + 1;
        }
        proof {
            lemma_entries_view_absent(self.entries@, hash@);
        }
        None
    }

    fn put_nodes(&mut self, batch: &Vec<(HashValue, AccumulatorNode)>) -> (r: Result<
        (),
        AccumulatorError,
    >) {
        proof {
            use_type_invariant(&*self);
        }
        let mut updated: Vec<(HashValue, AccumulatorNode)> = Vec::new();
        let mut i: usize = 0;
        let bn = batch.len();
        while i < bn
            invariant
                bn == batch@.len(),
                i <= bn,
                entries_wf(batch@),
                updated@ == batch@.take(i as int),
            decreases bn - i,
        {
            updated.push(batch[i]);
            proof {
                assert(updated@ =~= batch@.take(i as int + 1));
            }
            i = i + 1;
        }
        let mut j: usize = 0;
        let en = self.entries.len();
        while j < en
            invariant
                en == self.entries@.len(),
                j <= en,
                entries_wf(self.entries@),
                entries_wf(batch@),
                updated@ == batch@ + self.entries@.take(j as int),
            decreases en - j,
        {
            updated.push(self.entries[j]);
            proof {
                assert(updated@ =~= batch@ + self.entries@.take(j as int + 1));
            }
            j = j + 1;
        }
        proof {
            assert(batch@.take(bn as int) =~= batch@);
            assert(self.entries@.take(en as int) =~= self.entries@);
            assert(entries_wf(updated@)) by {
                assert(forall|x: int|
                    0 <= x < batch@.len() ==> updated@[x] == (#[trigger] batch@[x]));
                assert(forall|x: int|
                    0 <= x < self.entries@.len() ==> updated@[batch@.len() + x] == (
                    #[trigger] self.entries@[x]));
            }
            lemma_entries_view_concat(batch@, self.entries@);
        }
        self.entries = updated;
        Ok(())
    }
}

} // verus!
