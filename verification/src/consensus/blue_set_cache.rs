use vstd::prelude::*;
use crate::chain::block::BlockHash;

verus! {

/// What remains of a cache of entries, oldest first, pruned to at most `max`
/// entries: the newest `max` entries, or all of them when there are no more.
pub open spec fn keep_newest<T>(s: Seq<T>, max: nat) -> Seq<T> {
    if s.len() > max {
        s.subrange(s.len() - max, s.len() as int)
    } else {
        s
    }
}

/// Pruning leaves at most `max` entries, each of them an entry from before,
/// and pruning again to the same size changes nothing.
pub proof fn lemma_keep_newest<T>(s: Seq<T>, max: nat)
    ensures
        keep_newest(s, max).len() <= max || keep_newest(s, max) == s,
        keep_newest(s, max).len() == if s.len() > max {
            max
        } else {
            s.len()
        },
        forall|i: int| 0 <= i < keep_newest(s, max).len() ==> s.contains(#[trigger] keep_newest(s, max)[i]),
        keep_newest(keep_newest(s, max), max) == keep_newest(s, max),
{
    let r = keep_newest(s, max);
    if s.len() > max {
        assert forall|i: int| 0 <= i < r.len() implies s.contains(#[trigger] r[i]) by {
            assert(r[i] == s[s.len() - max + i]);
        }
    } else {
        assert forall|i: int| 0 <= i < r.len() implies s.contains(#[trigger] r[i]) by {
            assert(r[i] == s[i]);
        }
    }
}

/// Caches of blue-set computations, each kept oldest entry first.
#[derive(Clone, Debug)]
pub struct BlueSetCache {
    pub blue_sets: Vec<(BlockHash, Vec<BlockHash>)>,
    pub anticone_cache: Vec<((BlockHash, BlockHash), Vec<BlockHash>)>,
    pub blue_scores: Vec<(BlockHash, u64)>,
    pub merge_sets: Vec<((BlockHash, BlockHash), Vec<BlockHash>)>,
}

/// No two entries of a cache share a key.
pub open spec fn keys_unique<K, V>(v: Seq<(K, V)>) -> bool {
    forall|i: int, j: int| 0 <= i < j < v.len() ==> (#[trigger] v[i]).0 != (#[trigger] v[j]).0
}

/// Pruning keeps keys unique.
pub proof fn lemma_keep_newest_keys_unique<K, V>(v: Seq<(K, V)>, max: nat)
    requires
        keys_unique(v),
    ensures
        keys_unique(keep_newest(v, max)),
{
    if v.len() > max {
        let r = keep_newest(v, max);
        let d = v.len() - max;
        assert forall|i: int, j: int| 0 <= i < j < r.len() implies (#[trigger] r[i]).0 != (#[trigger] r[j]).0 by {
            assert(r[i] == v[d + i]);
            assert(r[j] == v[d + j]);
        }
    }
}

/// Drop the oldest entries of `v` until at most `max` remain.
fn prune_vec<T>(v: &mut Vec<T>, max: usize)
    ensures
        final(v)@ == keep_newest(old(v)@, max as nat),
{
    if v.len() > max {
        let cut = v.len() - max;
        let kept = v.split_off(cut);
        *v = kept;
    }
}

impl BlueSetCache {
    /// Each cache holds at most one entry per key.
    pub open spec fn wf(&self) -> bool {
        &&& keys_unique(self.blue_sets@)
        &&& keys_unique(self.anticone_cache@)
        &&& keys_unique(self.blue_scores@)
        &&& keys_unique(self.merge_sets@)
    }

    /// Empty caches.
    pub fn new() -> (c: Self)
        ensures
            c.wf(),
            c.blue_sets@.len() == 0,
            c.anticone_cache@.len() == 0,
            c.blue_scores@.len() == 0,
            c.merge_sets@.len() == 0,
    {
        BlueSetCache { blue_sets: Vec::new(), anticone_cache: Vec::new(), blue_scores: Vec::new(), merge_sets: Vec::new() }
    }

    /// Empty every cache.
    pub fn clear(&mut self)
        ensures
            final(self).wf(),
            final(self).blue_sets@.len() == 0,
            final(self).anticone_cache@.len() == 0,
            final(self).blue_scores@.len() == 0,
            final(self).merge_sets@.len() == 0,
    {
        self.blue_sets.clear();
        self.anticone_cache.clear();
        self.blue_scores.clear();
        self.merge_sets.clear();
    }

    /// Keep at most `max_size` entries in each cache, dropping the oldest.
    pub fn prune_old_entries(&mut self, max_size: usize)
        ensures
            final(self).blue_sets@ == keep_newest(old(self).blue_sets@, max_size as nat),
            final(self).anticone_cache@ == keep_newest(old(self).anticone_cache@, max_size as nat),
            final(self).blue_scores@ == keep_newest(old(self).blue_scores@, max_size as nat),
            final(self).merge_sets@ == keep_newest(old(self).merge_sets@, max_size as nat),
            old(self).wf() ==> final(self).wf(),
    {
        proof {
            if self.wf() {
                lemma_keep_newest_keys_unique(self.blue_sets@, max_size as nat);
                lemma_keep_newest_keys_unique(self.anticone_cache@, max_size as nat);
                lemma_keep_newest_keys_unique(self.blue_scores@, max_size as nat);
                lemma_keep_newest_keys_unique(self.merge_sets@, max_size as nat);
            }
        }
        prune_vec(&mut self.blue_sets, max_size);
        prune_vec(&mut self.anticone_cache, max_size);
        prune_vec(&mut self.blue_scores, max_size);
        prune_vec(&mut self.merge_sets, max_size);
    }
}

} // verus!
