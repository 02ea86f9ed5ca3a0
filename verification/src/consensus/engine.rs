use vstd::prelude::*;
use crate::chain::block::{keeps_content, Block, BlockHash};
use crate::consensus::ghostdag::{is_best_index, GHOSTDAGEngine};
use crate::dag::{contains_hash, hash_index, tips_seq, BlockDAG};

verus! {

/// A consensus engine as node and mining components use it.
pub trait ConsensusEngine {
    /// The engine's invariant.
    spec fn engine_wf(&self) -> bool;

    /// The DAG the engine works on.
    spec fn engine_blocks(&self) -> Seq<Block>;

    /// The blue score the engine reports for a block, if any.
    spec fn engine_score(&self, h: BlockHash) -> Option<u64>;

    /// Work on `dag` from now on.
    fn attach_dag(&mut self, dag: BlockDAG)
        requires
            old(self).engine_wf(),
            dag.wf(),
        ensures
            final(self).engine_wf(),
            final(self).engine_blocks() == dag@,
    ;

    /// The first tip, or the zero hash without tips.
    fn get_virtual_selected_parent(&self) -> (r: BlockHash)
        requires
            self.engine_wf(),
        ensures
            tips_seq(self.engine_blocks()).len() > 0 ==> r == tips_seq(self.engine_blocks())[0],
            tips_seq(self.engine_blocks()).len() == 0 ==> r@ == seq![0u8; 32],
    ;

    /// The blue score reported for the first tip; 0 without tips or when
    /// none is reported.
    fn get_virtual_blue_score(&self) -> (r: u64)
        requires
            self.engine_wf(),
        ensures
            r == (if tips_seq(self.engine_blocks()).len() > 0 {
                match self.engine_score(tips_seq(self.engine_blocks())[0]) {
                    Some(v) => v,
                    None => 0,
                }
            } else {
                0
            }),
    ;

    /// The blue score reported for a block; an error when there is none.
    fn calculate_blue_score(&self, hash: &BlockHash) -> (r: Result<u64, String>)
        requires
            self.engine_wf(),
        ensures
            match self.engine_score(*hash) {
                Some(v) => r == Ok::<u64, String>(v),
                None => r.is_err(),
            },
    ;

    /// Record the engine's consensus metadata in a block.
    fn annotate_block(&mut self, dag: &BlockDAG, block: &mut Block) -> (r: Result<(), String>)
        requires
            old(self).engine_wf(),
            dag.wf(),
        ensures
            final(self).engine_wf(),
            final(self).engine_blocks() == old(self).engine_blocks(),
            r.is_ok(),
    ;
}

impl ConsensusEngine for GHOSTDAGEngine {
    open spec fn engine_wf(&self) -> bool {
        self.wf()
    }

    open spec fn engine_blocks(&self) -> Seq<Block> {
        self.blocks()
    }

    open spec fn engine_score(&self, h: BlockHash) -> Option<u64> {
        match self.cached_score(h) {
            Some(v) => Some(v),
            None => if contains_hash(self.blocks(), h) {
                Some(self.blocks()[hash_index(self.blocks(), h)->0].header.blue_score)
            } else {
                None
            },
        }
    }

    fn attach_dag(&mut self, dag: BlockDAG) {
        GHOSTDAGEngine::attach_dag(self, dag);
    }

    fn get_virtual_selected_parent(&self) -> (r: BlockHash) {
        let tips = match self.get_dag() {
            Some(d) => d.get_tips(),
            None => Vec::new(),
        };
        if tips.len() > 0 {
            tips[0]
        } else {
            let z = [0u8; 32];
            assert(z@ =~= seq![0u8; 32]);
            z
        }
    }

    fn get_virtual_blue_score(&self) -> (r: u64) {
        let tips = match self.get_dag() {
            Some(d) => d.get_tips(),
            None => Vec::new(),
        };
        if tips.len() > 0 {
            match self.get_blue_score(&tips[0]) {
                Ok(v) => v,
                Err(_) => 0,
            }
        } else {
            0
        }
    }

    fn calculate_blue_score(&self, hash: &BlockHash) -> (r: Result<u64, String>) {
        self.get_blue_score(hash)
    }

    /// Annotates the block as `GHOSTDAGEngine::annotate_block` does.
    fn annotate_block(&mut self, dag: &BlockDAG, block: &mut Block) -> (r: Result<(), String>)
        ensures
            *final(self) == *old(self),
            ({
                let ps = old(block).header.parent_hashes@;
                let sel = final(block).header.selected_parent;
                &&& ps.len() == 0 ==> sel is None
                &&& ps.len() > 0 ==> (sel matches Some(p) && exists|b: int| #[trigger] is_best_index(ps, old(self).recorded_scores(ps), b) && ps[b] == p)
                &&& final(block).header.chain_height == match sel {
                    Some(p) => match hash_index(dag@, p) {
                        Some(pi) => if dag@[pi].height == u64::MAX { u64::MAX } else { (dag@[pi].height + 1) as u64 },
                        None => 1u64,
                    },
                    None => 0u64,
                }
                &&& final(block).header.blue_score == (if old(self).max_recorded(ps) == u64::MAX {
                    u64::MAX
                } else {
                    (old(self).max_recorded(ps) + 1) as u64
                })
                &&& final(block).header.topo_index == dag@.len()
                &&& keeps_content(*old(block), *final(block))
            }),
            forall|k: int|
                0 <= k < old(block).header.parent_hashes@.len() ==> final(block).header.blue_score > old(
                    self,
                ).recorded_score(#[trigger] old(block).header.parent_hashes@[k]) || final(block).header.blue_score
                    == u64::MAX,
    {
        GHOSTDAGEngine::annotate_block(self, dag, block)
    }
}

} // verus!
