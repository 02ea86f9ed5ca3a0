use vstd::prelude::*;
use std::collections::VecDeque;
use crate::chain::block::{Block, BlockHash};
use crate::dag::BlockDAG;
use crate::consensus::blue_set_cache::keep_newest;

verus! {

/// Number of most recent blocks the difficulty adjustment looks at.
pub const DAA_WINDOW: usize = 263;

/// Target time between blocks, in seconds.
pub const TARGET_BLOCK_TIME: u64 = 1;

/// Largest gap between two consecutive timestamps that counts, in seconds.
pub const MAX_GAP: u64 = 4;

/// The gap between two consecutive timestamps, clamped to `0..=MAX_GAP`.
pub open spec fn clamped_gap(prev: u64, ts: u64) -> nat {
    if ts > prev {
        if ts - prev < MAX_GAP {
            (ts - prev) as nat
        } else {
            MAX_GAP as nat
        }
    } else {
        0
    }
}

/// Time spanned by a run of blocks: the sum of the clamped gaps between
/// consecutive timestamps.
pub open spec fn window_span(w: Seq<Block>) -> nat
    decreases w.len(),
{
    if w.len() <= 1 {
        0
    } else {
        window_span(w.drop_last()) + clamped_gap(w[w.len() - 2].header.timestamp, w.last().header.timestamp)
    }
}

/// The previous difficulty scaled by `actual / expected` (the ratio clamped
/// to `[1/4, 4]`), rounded to nearest, then clamped to `1..=u32::MAX`.
///
/// With `expected` odd, `prev * actual / expected` is never half-way between
/// two integers, so rounding to nearest is `(2 * prev * actual + expected)
/// / (2 * expected)`; a quarter of `prev` rounds half up.
pub open spec fn scaled_difficulty(prev: nat, actual: nat, expected: nat) -> nat {
    let raw = if 4 * actual < expected {
        (prev + 2) / 4
    } else if actual > 4 * expected {
        4 * prev
    } else {
        (2 * prev * actual + expected) / (2 * expected)
    };
    if raw < 1 {
        1
    } else if raw > u32::MAX {
        u32::MAX as nat
    } else {
        raw
    }
}

/// The next difficulty for a chronologically ordered run of blocks: the last
/// block's difficulty (1 for none) when there are fewer than `DAA_WINDOW`
/// blocks; otherwise the last block's difficulty scaled by the time the last
/// `DAA_WINDOW` blocks took against the time they should have taken.
pub open spec fn next_difficulty_spec(blocks: Seq<Block>) -> nat {
    if blocks.len() < DAA_WINDOW {
        if blocks.len() == 0 {
            1
        } else {
            blocks.last().header.difficulty as nat
        }
    } else {
        let w = blocks.subrange(blocks.len() - DAA_WINDOW, blocks.len() as int);
        scaled_difficulty(w.last().header.difficulty as nat, window_span(w), (DAA_WINDOW as nat) * (TARGET_BLOCK_TIME as nat))
    }
}

/// Calculate the next difficulty from a chronologically ordered run of
/// blocks. With fewer than `DAA_WINDOW` blocks the last difficulty is kept.
pub fn calculate_next_difficulty(blocks: &[Block]) -> (d: u32)
    ensures
        d as nat == next_difficulty_spec(blocks@),
{
    let n = blocks.len();
    if n < DAA_WINDOW {
        if n == 0 {
            return 1;
        }
        return blocks[n - 1].header.difficulty;
    }
    let start = n - DAA_WINDOW;
    let ghost w = blocks@.subrange(start as int, n as int);
    let mut actual: u64 = 0;
    let mut prev_ts: u64 = blocks[start].header.timestamp;
    let mut i: usize = start + 1;
    proof {
        assert(w.subrange(0, 1).len() == 1);
        assert(window_span(w.subrange(0, 1)) == 0);
    }
    while i < n
        invariant
            n == blocks@.len(),
            start == n - DAA_WINDOW,
            w == blocks@.subrange(start as int, n as int),
            start + 1 <= i <= n,
            prev_ts == blocks@[i - 1].header.timestamp,
            actual as nat == window_span(w.subrange(0, i - start)),
            actual <= MAX_GAP * (i - start),
        decreases n - i,
    {
        let ts = blocks[i].header.timestamp;
        let delta: u64 = if ts > prev_ts {
            ts - prev_ts
        } else {
            0
        };
        let step: u64 = if delta < MAX_GAP {
            delta
        } else {
            MAX_GAP
        };
        proof {
            let sub = w.subrange(0, i + 1 - start);
            assert(sub.drop_last() =~= w.subrange(0, i - start));
            assert(sub.last() == blocks@[i as int]);
            assert(sub[sub.len() - 2] == blocks@[i - 1]);
        }
        actual = actual + step;
        prev_ts = ts;
        i = i + 1;
    }
    proof {
        assert(w.subrange(0, n - start) =~= w);
    }
    let prev: u64 = blocks[n - 1].header.difficulty as u64;
    let expected: u64 = (DAA_WINDOW as u64) * TARGET_BLOCK_TIME;
    let raw: u64 = if 4 * actual < expected {
        (prev + 2) / 4
    } else if actual > 4 * expected {
        4 * prev
    } else {
        proof {
            assert(2 * prev * actual <= 2 * 0xffff_ffffu64 * 1052) by (nonlinear_arith)
                requires
                    prev <= 0xffff_ffffu64,
                    actual <= 1052,
            ;
        }
        (2 * prev * actual + expected) / (2 * expected)
    };
    if raw < 1 {
        1
    } else if raw > 0xffff_ffffu64 {
        0xffff_ffffu32
    } else {
        raw as u32
    }
}

/// Next difficulty for a DAG: the difficulty computed from its most recent
/// `DAA_WINDOW` blocks in topological order, and never 0.
pub fn next_difficulty(dag: &BlockDAG) -> (d: u32)
    ensures
        d as nat == (if next_difficulty_spec(dag@) == 0 {
            1
        } else {
            next_difficulty_spec(dag@)
        }),
{
    let d = calculate_next_difficulty(dag.as_slice());
    if d < 1 {
        1
    } else {
        d
    }
}

/// The block reward for a blue score: 500, halved every 210 000 blue score,
/// and 0 once it has been halved 64 times.
pub open spec fn block_reward_spec(blue_score: u64) -> nat {
    let halvings = blue_score / 210_000;
    if halvings >= 64 {
        0
    } else {
        (500u64 >> halvings) as nat
    }
}

/// Moving window of recent blocks for difficulty adjustment, oldest first.
#[derive(Clone, Debug)]
pub struct DaaWindow {
    pub blocks: VecDeque<BlockHash>,
    pub timestamps: VecDeque<u64>,
    pub blue_scores: VecDeque<u64>,
}

/// Append `x` to `s`, then drop the oldest entry while there are more than
/// `cap`.
pub open spec fn push_capped(s: Seq<u64>, x: u64, cap: nat) -> Seq<u64> {
    let t = s.push(x);
    if t.len() > cap {
        t.drop_first()
    } else {
        t
    }
}

impl DaaWindow {
    /// An empty window.
    pub fn new() -> (w: Self)
        ensures
            w.blocks@.len() == 0,
            w.timestamps@.len() == 0,
            w.blue_scores@.len() == 0,
    {
        DaaWindow { blocks: VecDeque::new(), timestamps: VecDeque::new(), blue_scores: VecDeque::new() }
    }
}

/// Configuration of the difficulty adjustment manager. Its fractional
/// factors are held in millionths.
#[derive(Clone, Debug)]
pub struct DaaConfig {
    pub window_size: usize,
    /// Target time between blocks, in seconds.
    pub target_block_time: u64,
    pub max_adjustment_factor_ppm: u64,
    pub min_difficulty: u32,
    pub max_difficulty: u32,
    pub ema_alpha_ppm: u64,
    pub timestamp_future_limit: u64,
    pub timestamp_past_limit: u64,
    pub burst_threshold_blocks: usize,
    pub burst_adjustment_multiplier_ppm: u64,
}

impl Default for DaaConfig {
    fn default() -> (c: Self)
        ensures
            c.window_size == 263,
            c.target_block_time == 30,
            c.max_adjustment_factor_ppm == 4_000_000,
            c.min_difficulty == 1,
            c.max_difficulty == u32::MAX / 4,
            c.ema_alpha_ppm == 100_000,
            c.timestamp_future_limit == 7200,
            c.timestamp_past_limit == 86400,
            c.burst_threshold_blocks == 10,
            c.burst_adjustment_multiplier_ppm == 2_000_000,
    {
        DaaConfig {
            window_size: 263,
            target_block_time: 30,
            max_adjustment_factor_ppm: 4_000_000,
            min_difficulty: 1,
            max_difficulty: 1_073_741_823,
            ema_alpha_ppm: 100_000,
            timestamp_future_limit: 7200,
            timestamp_past_limit: 86400,
            burst_threshold_blocks: 10,
            burst_adjustment_multiplier_ppm: 2_000_000,
        }
    }
}

/// Integer state of the difficulty adjustment: the configuration, the
/// current difficulty and the window of recent timestamps and blue scores.
#[derive(Clone, Debug)]
pub struct DaaManager {
    pub config: DaaConfig,
    pub current_difficulty: u32,
    pub last_update_timestamp: u64,
    pub block_count_since_adjustment: usize,
    pub window: DaaWindow,
}

impl DaaManager {
    /// A manager with difficulty 1 and an empty window.
    pub fn new(config: DaaConfig) -> (m: Self)
        ensures
            m.config == config,
            m.current_difficulty == 1,
            m.last_update_timestamp == 0,
            m.block_count_since_adjustment == 0,
            m.window.timestamps@.len() == 0,
            m.window.blue_scores@.len() == 0,
            m.window.blocks@.len() == 0,
    {
        DaaManager {
            config,
            current_difficulty: 1,
            last_update_timestamp: 0,
            block_count_since_adjustment: 0,
            window: DaaWindow::new(),
        }
    }

    /// Check a block timestamp against the time `now`: an error when it is
    /// more than the future limit ahead or more than the past limit behind.
    pub fn validate_timestamp(&self, timestamp: u64, now: u64) -> (r: Result<(), String>)
        requires
            now + self.config.timestamp_future_limit <= u64::MAX,
        ensures
            r.is_ok() <==> (timestamp <= now + self.config.timestamp_future_limit && timestamp >= (if now
                >= self.config.timestamp_past_limit {
                now - self.config.timestamp_past_limit
            } else {
                0
            })),
            timestamp > now + self.config.timestamp_future_limit ==> (r matches Err(e) && e@
                == "Timestamp too far in the future"@),
            timestamp <= now + self.config.timestamp_future_limit && now >= self.config.timestamp_past_limit && timestamp
                < now - self.config.timestamp_past_limit ==> (r matches Err(e) && e@ == "Timestamp too far in the past"@),
    {
        if timestamp > now + self.config.timestamp_future_limit {
            return Err("Timestamp too far in the future".to_string());
        }
        if timestamp < now.saturating_sub(self.config.timestamp_past_limit) {
            return Err("Timestamp too far in the past".to_string());
        }
        Ok(())
    }

    /// Record a block's timestamp and blue score in the window, dropping the
    /// oldest entries beyond the window size.
    pub fn update_window(&mut self, timestamp: u64, blue_score: u64) -> (r: Result<(), String>)
        ensures
            r.is_ok(),
            final(self).window.timestamps@ == push_capped(old(self).window.timestamps@, timestamp, old(self).config.window_size as nat),
            final(self).window.blue_scores@ == push_capped(old(self).window.blue_scores@, blue_score, old(self).config.window_size as nat),
            final(self).window.blocks@ == old(self).window.blocks@,
            final(self).config == old(self).config,
            final(self).current_difficulty == old(self).current_difficulty,
    {
        self.window.timestamps.push_back(timestamp);
        if self.window.timestamps.len() > self.config.window_size {
            self.window.timestamps.pop_front();
        }
        self.window.blue_scores.push_back(blue_score);
        if self.window.blue_scores.len() > self.config.window_size {
            self.window.blue_scores.pop_front();
        }
        Ok(())
    }

    /// The window as (timestamp, blue score) pairs, oldest first; a missing
    /// blue score reads as 0.
    pub fn collect_daa_window(&self) -> (r: Vec<(u64, u64)>)
        ensures
            r@.len() == self.window.timestamps@.len(),
            forall|i: int| 0 <= i < r@.len() ==> (#[trigger] r@[i]).0 == self.window.timestamps@[i] && r@[i].1 == (if i
                < self.window.blue_scores@.len() {
                self.window.blue_scores@[i]
            } else {
                0
            }),
    {
        let mut data: Vec<(u64, u64)> = Vec::new();
        let n = self.window.timestamps.len();
        let mut i: usize = 0;
        while i < n
            invariant
                n == self.window.timestamps@.len(),
                i <= n,
                data@.len() == i,
                forall|j: int| 0 <= j < i ==> (#[trigger] data@[j]).0 == self.window.timestamps@[j] && data@[j].1 == (if j
                    < self.window.blue_scores@.len() {
                    self.window.blue_scores@[j]
                } else {
                    0
                }),
            decreases n - i,
        {
            let ts = self.window.timestamps[i];
            let bs: u64 = if i < self.window.blue_scores.len() {
                self.window.blue_scores[i]
            } else {
                0
            };
            data.push((ts, bs));
            i = i + 1;
        }
        data
    }

    /// Record an accepted block's difficulty and timestamp.
    pub fn update_difficulty_state(&mut self, new_difficulty: u32, timestamp: u64) -> (r: Result<(), String>)
        requires
            old(self).block_count_since_adjustment < usize::MAX,
        ensures
            r.is_ok(),
            final(self).current_difficulty == new_difficulty,
            final(self).last_update_timestamp == timestamp,
            final(self).block_count_since_adjustment == old(self).block_count_since_adjustment + 1,
            final(self).window == old(self).window,
            final(self).config == old(self).config,
    {
        self.current_difficulty = new_difficulty;
        self.last_update_timestamp = timestamp;
        self.block_count_since_adjustment = self.block_count_since_adjustment + 1;
        Ok(())
    }

    /// Current difficulty.
    pub fn get_current_difficulty(&self) -> (d: u32)
        ensures
            d == self.current_difficulty,
    {
        self.current_difficulty
    }

    /// DAA score: the newest blue score of the window (0 for none).
    pub fn get_current_daa_score(&self) -> (s: u64)
        ensures
            s == (if self.window.blue_scores@.len() == 0 {
                0
            } else {
                self.window.blue_scores@.last()
            }),
    {
        let n = self.window.blue_scores.len();
        if n == 0 {
            0
        } else {
            self.window.blue_scores[n - 1]
        }
    }

    /// Block reward for a blue score: 500, halved every 210 000.
    pub fn calculate_block_reward(&self, blue_score: u64) -> (r: u64)
        ensures
            r as nat == block_reward_spec(blue_score),
    {
        let halving_interval: u64 = 210_000;
        let initial_reward: u64 = 500;
        let halvings = blue_score / halving_interval;
        if halvings >= 64 {
            0
        } else {
            initial_reward >> halvings
        }
    }

    /// Drop the oldest window entries beyond the window size: one
    /// timestamp and one blue score (while there is one) at a time.
    pub fn prune_window(&mut self, _pruning_point: &BlockHash)
        ensures
            final(self).window.timestamps@ == keep_newest(old(self).window.timestamps@, old(self).config.window_size as nat),
            final(self).window.blue_scores@ == old(self).window.blue_scores@.skip(
                vstd::math::min(
                    old(self).window.timestamps@.len() - keep_newest(old(self).window.timestamps@, old(self).config.window_size as nat).len(),
                    old(self).window.blue_scores@.len() as int,
                ),
            ),
            final(self).window.blocks@ == old(self).window.blocks@,
            final(self).config == old(self).config,
            final(self).current_difficulty == old(self).current_difficulty,
    {
        let ghost ts0 = self.window.timestamps@;
        let ghost bs0 = self.window.blue_scores@;
        while self.window.timestamps.len() > self.config.window_size
            invariant
                ts0.len() >= self.window.timestamps@.len(),
                self.window.timestamps@.len() >= vstd::math::min(ts0.len() as int, self.config.window_size as int),
                self.window.timestamps@ == ts0.skip(ts0.len() - self.window.timestamps@.len()),
                self.window.blue_scores@ == bs0.skip(vstd::math::min(ts0.len() - self.window.timestamps@.len(), bs0.len() as int)),
                self.window.blocks@ == old(self).window.blocks@,
                self.config == old(self).config,
                self.current_difficulty == old(self).current_difficulty,
            decreases self.window.timestamps@.len(),
        {
            let ghost k = ts0.len() - self.window.timestamps@.len();
            self.window.timestamps.pop_front();
            self.window.blue_scores.pop_front();
            assert(self.window.timestamps@ =~= ts0.skip(k + 1));
            assert(self.window.blue_scores@ =~= bs0.skip(vstd::math::min(k + 1, bs0.len() as int)));
        }
        assert(self.window.timestamps@ =~= keep_newest(ts0, self.config.window_size as nat));
    }
}


/// Ascending order.
pub open spec fn ascending(s: Seq<u64>) -> bool {
    forall|i: int, j: int| 0 <= i < j < s.len() ==> s[i] <= s[j]
}

/// The timestamps of window data.
pub open spec fn window_times(w: Seq<(u64, u64)>) -> Seq<u64> {
    w.map_values(|p: (u64, u64)| p.0)
}

/// `m` is the median of `ts`: the entry at position `len / 2` of its
/// ascending arrangement.
pub open spec fn is_median(ts: Seq<u64>, m: u64) -> bool {
    exists|t: Seq<u64>| #[trigger] ascending(t) && t.to_multiset() == ts.to_multiset() && t.len() == ts.len() && t[(ts.len() / 2) as int] == m
}

/// The values of `v` in ascending order.
fn sort_ascending(v: &Vec<u64>) -> (r: Vec<u64>)
    ensures
        ascending(r@),
        r@.to_multiset() == v@.to_multiset(),
        r@.len() == v@.len(),
{
    let mut out: Vec<u64> = Vec::new();
    let mut i: usize = 0;
    assert(v@.take(0) =~= Seq::<u64>::empty());
    while i < v.len()
        invariant
            i <= v@.len(),
            ascending(out@),
            out@.to_multiset() == v@.take(i as int).to_multiset(),
            out@.len() == i,
        decreases v@.len() - i,
    {
        let x = v[i];
        let mut p: usize = 0;
        while p < out.len() && out[p] <= x
            invariant
                p <= out@.len(),
                forall|j: int| 0 <= j < p ==> out@[j] <= x,
            decreases out@.len() - p,
        {
            p = p + 1;
        }
        let ghost before = out@;
        out.insert(p, x);
        proof {
            assert(out@ == before.insert(p as int, x));
            assert(v@.take(i + 1) =~= v@.take(i as int).push(x));
            vstd::seq_lib::to_multiset_insert(before, p as int, x);
            vstd::seq_lib::to_multiset_build(v@.take(i as int), x);
            assert forall|a: int, b: int| 0 <= a < b < out@.len() implies out@[a] <= out@[b] by {
                if b < p {
                } else if b == p {
                } else if a < p {
                    assert(out@[b] == before[b - 1]);
                    assert(before[b - 1] > x || b - 1 >= p);
                    if (p as int) < before.len() {
                        assert(before[p as int] > x);
                        assert(before[p as int] <= before[b - 1]);
                    }
                } else if a == p {
                    assert(before[p as int] > x);
                    assert(before[p as int] <= before[b - 1]);
                } else {
                    assert(out@[a] == before[a - 1]);
                    assert(out@[b] == before[b - 1]);
                }
            }
        }
        i = i + 1;
    }
    assert(v@.take(v@.len() as int) =~= v@);
    out
}

impl DaaManager {
    /// Median timestamp of window data: the middle one after sorting (the
    /// upper one of the two middle ones for an even count); an error for no
    /// data.
    pub fn median_timestamp(&self, window_data: &[(u64, u64)]) -> (r: Result<u64, String>)
        ensures
            window_data@.len() == 0 ==> (r matches Err(e) && e@ == "Empty window data"@),
            window_data@.len() > 0 ==> (r matches Ok(m) && is_median(window_times(window_data@), m)),
    {
        if window_data.len() == 0 {
            return Err("Empty window data".to_string());
        }
        let mut times: Vec<u64> = Vec::new();
        let mut i: usize = 0;
        while i < window_data.len()
            invariant
                i <= window_data@.len(),
                times@ == window_times(window_data@.take(i as int)),
            decreases window_data@.len() - i,
        {
            times.push(window_data[i].0);
            i = i + 1;
            assert(times@ =~= window_times(window_data@.take(i as int)));
        }
        assert(window_data@.take(window_data@.len() as int) =~= window_data@);
        let sorted = sort_ascending(&times);
        let mid = sorted.len() / 2;
        assert(ascending(sorted@));
        Ok(sorted[mid])
    }

    /// Burst protection, in millionths: the configured multiplier when the
    /// last `burst_threshold_blocks` entries of the window reach back less
    /// than half the time they should take before `current_timestamp`, else
    /// one million (no change); no change when the window is shorter.
    pub fn compute_burst_adjustment(&self, window_data: &[(u64, u64)], current_timestamp: u64) -> (r: Result<u64, String>)
        requires
            self.config.burst_threshold_blocks > 0,
            self.config.burst_threshold_blocks * self.config.target_block_time <= u64::MAX,
            window_data@.len() >= self.config.burst_threshold_blocks ==> current_timestamp >= window_data@[window_data@.len()
                - self.config.burst_threshold_blocks].0,
        ensures
            r == Ok::<u64, String>(
                if window_data@.len() >= self.config.burst_threshold_blocks && current_timestamp - window_data@[window_data@.len()
                    - self.config.burst_threshold_blocks].0 < self.config.burst_threshold_blocks * self.config.target_block_time
                    / 2 {
                    self.config.burst_adjustment_multiplier_ppm
                } else {
                    1_000_000
                },
            ),
    {
        let n = self.config.burst_threshold_blocks;
        if window_data.len() < n {
            return Ok(1_000_000);
        }
        let oldest = window_data[window_data.len() - n].0;
        let recent_time_span = current_timestamp - oldest;
        let expected_time = (n as u64) * self.config.target_block_time;
        if recent_time_span < expected_time / 2 {
            Ok(self.config.burst_adjustment_multiplier_ppm)
        } else {
            Ok(1_000_000)
        }
    }
}

/// The adjustment changes difficulty at most fourfold either way: the next
/// difficulty is at most four times the previous one (or 1), and at least a
/// quarter of it, rounded.
pub proof fn lemma_difficulty_change_bounded(prev: nat, actual: nat, expected: nat)
    requires
        expected > 0,
        prev <= u32::MAX,
    ensures
        scaled_difficulty(prev, actual, expected) <= if 4 * prev >= 1 { 4 * prev } else { 1 },
        scaled_difficulty(prev, actual, expected) >= (prev + 2) / 4,
        1 <= scaled_difficulty(prev, actual, expected) <= u32::MAX,
{
    if 4 * actual < expected {
    } else if actual > 4 * expected {
    } else {
        assert((2 * prev * actual + expected) / (2 * expected) <= 4 * prev) by (nonlinear_arith)
            requires
                actual <= 4 * expected,
                expected > 0,
        {
            assert(2 * prev * actual + expected <= 8 * prev * expected + expected);
            assert((8 * prev * expected + expected) / (2 * expected) <= 4 * prev);
        }
        assert((2 * prev * actual + expected) / (2 * expected) >= (prev + 2) / 4) by (nonlinear_arith)
            requires
                4 * actual >= expected,
                expected > 0,
        {
            assert(2 * prev * actual * 4 >= 2 * prev * expected);
        }
    }
}


/// The time span of a run of blocks depends on their timestamps alone.
proof fn lemma_window_span_timestamps(w1: Seq<Block>, w2: Seq<Block>)
    requires
        w1.len() == w2.len(),
        forall|i: int| 0 <= i < w1.len() ==> (#[trigger] w1[i]).header.timestamp == w2[i].header.timestamp,
    ensures
        window_span(w1) == window_span(w2),
    decreases w1.len(),
{
    if w1.len() > 1 {
        lemma_window_span_timestamps(w1.drop_last(), w2.drop_last());
        assert(w1[w1.len() - 2].header.timestamp == w2[w2.len() - 2].header.timestamp);
    }
}

/// Scaling a larger difficulty gives a result at least as large.
proof fn lemma_scaled_monotone(p1: nat, p2: nat, actual: nat, expected: nat)
    requires
        p1 <= p2,
        expected > 0,
    ensures
        scaled_difficulty(p1, actual, expected) <= scaled_difficulty(p2, actual, expected),
{
    if 4 * actual < expected {
        assert((p1 + 2) / 4 <= (p2 + 2) / 4) by (nonlinear_arith)
            requires
                p1 <= p2,
        ;
    } else if actual > 4 * expected {
    } else {
        assert(2 * p1 * actual <= 2 * p2 * actual) by (nonlinear_arith)
            requires
                p1 <= p2,
        ;
        vstd::arithmetic::div_mod::lemma_div_is_ordered(
            (2 * p1 * actual + expected) as int,
            (2 * p2 * actual + expected) as int,
            (2 * expected) as int,
        );
    }
}

/// Over a window that took exactly the expected time, the difficulty is
/// kept (and at least 1).
proof fn lemma_scaled_on_target(prev: nat, expected: nat)
    requires
        expected > 0,
        prev <= u32::MAX,
    ensures
        scaled_difficulty(prev, expected, expected) == if prev < 1 { 1 } else { prev },
{
    assert(2 * prev * expected + expected == prev * (2 * expected) + expected) by (nonlinear_arith);
    vstd::arithmetic::div_mod::lemma_fundamental_div_mod_converse(
        (2 * prev * expected + expected) as int,
        (2 * expected) as int,
        prev as int,
        expected as int,
    );
}

/// The next difficulty is a scaling of the most recent block's difficulty
/// by the window's timing alone:
/// - two runs with the same length and timestamps whose most recent blocks
///   have the same difficulty get the same next difficulty, whatever the
///   difficulties of older blocks;
/// - a larger most recent difficulty never gives a smaller next one;
/// - when the window took exactly the expected time, the most recent
///   difficulty is kept (at least 1).
pub proof fn lemma_next_difficulty_follows_last(a: Seq<Block>, b: Seq<Block>)
    requires
        a.len() == b.len(),
        a.len() > 0,
        forall|i: int| 0 <= i < a.len() ==> (#[trigger] a[i]).header.timestamp == b[i].header.timestamp,
    ensures
        a.last().header.difficulty == b.last().header.difficulty ==> next_difficulty_spec(a) == next_difficulty_spec(b),
        a.last().header.difficulty <= b.last().header.difficulty ==> next_difficulty_spec(a) <= next_difficulty_spec(b),
        a.len() >= DAA_WINDOW && window_span(a.subrange(a.len() - DAA_WINDOW, a.len() as int)) == (DAA_WINDOW as nat)
            * (TARGET_BLOCK_TIME as nat) ==> next_difficulty_spec(a) == if a.last().header.difficulty < 1 {
            1
        } else {
            a.last().header.difficulty as nat
        },
{
    let e = (DAA_WINDOW as nat) * (TARGET_BLOCK_TIME as nat);
    if a.len() >= DAA_WINDOW {
        let n = a.len() as int;
        let wa = a.subrange(n - DAA_WINDOW, n);
        let wb = b.subrange(n - DAA_WINDOW, n);
        assert forall|i: int| 0 <= i < wa.len() implies (#[trigger] wa[i]).header.timestamp == wb[i].header.timestamp by {
            assert(wa[i] == a[n - DAA_WINDOW + i]);
            assert(wb[i] == b[n - DAA_WINDOW + i]);
        }
        lemma_window_span_timestamps(wa, wb);
        assert(wa.last() == a.last());
        assert(wb.last() == b.last());
        lemma_scaled_monotone(
            a.last().header.difficulty as nat,
            if a.last().header.difficulty <= b.last().header.difficulty {
                b.last().header.difficulty as nat
            } else {
                a.last().header.difficulty as nat
            },
            window_span(wa),
            e,
        );
        lemma_scaled_on_target(a.last().header.difficulty as nat, e);
    }
}

/// The block reward halves every 210 000 blue score.
pub proof fn lemma_block_reward_halves(blue_score: u64)
    requires
        blue_score + 210_000 <= u64::MAX,
    ensures
        block_reward_spec((blue_score + 210_000) as u64) == block_reward_spec(blue_score) / 2,
{
    let h = blue_score / 210_000;
    assert(((blue_score + 210_000) as u64) / 210_000 == h + 1);
    if h < 63 {
        let hh = h as u64;
        assert((500u64 >> ((hh + 1) as u64)) == (500u64 >> hh) / 2) by (bit_vector)
            requires
                hh < 63,
        ;
    } else if h == 63 {
        let hh = h as u64;
        assert((500u64 >> hh) == 0) by (bit_vector)
            requires
                hh == 63,
        ;
    }
}

} // verus!
