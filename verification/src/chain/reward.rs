use vstd::prelude::*;

verus! {

/// Emission parameters of the block reward.
#[derive(Clone, Debug)]
pub struct RewardConfig {
    /// Reward of a block while mining supply remains.
    pub initial_reward: u64,
    /// Total coin supply.
    pub total_supply: u64,
    /// Part of the supply allocated at genesis, not mined.
    pub genesis_allocation: u64,
    /// Number of recent blocks that mining looks at for activity.
    pub activity_window: usize,
}

impl RewardConfig {
    /// The network's emission parameters, as a value.
    pub open spec fn default_spec() -> Self {
        RewardConfig {
            initial_reward: 100,
            total_supply: 600_000_000,
            genesis_allocation: 100_000_000,
            activity_window: 100,
        }
    }
}

impl Default for RewardConfig {
    /// The network's emission parameters.
    fn default() -> (c: Self)
        ensures
            c == Self::default_spec(),
    {
        RewardConfig {
            initial_reward: 100,
            total_supply: 600_000_000,
            genesis_allocation: 100_000_000,
            activity_window: 100,
        }
    }
}

/// Supply that can still be mined after `emitted` coins were minted.
pub open spec fn remaining_mining_supply(emitted: nat, c: RewardConfig) -> nat {
    let mining = if c.total_supply >= c.genesis_allocation {
        (c.total_supply - c.genesis_allocation) as nat
    } else {
        0nat
    };
    if mining >= emitted {
        (mining - emitted) as nat
    } else {
        0nat
    }
}

/// The base block reward: the configured reward, capped by what remains of
/// the mining supply. The default parameters are those of the network's
/// emission schedule (reward 100, supply 600,000,000, of which 100,000,000
/// at genesis). The reward depends on the emitted supply alone; chain
/// progress, recent block times and a block's transaction count do not
/// change it.
pub open spec fn expected_block_reward(emitted: nat, c: RewardConfig) -> nat {
    let rem = remaining_mining_supply(emitted, c);
    if (c.initial_reward as nat) <= rem {
        c.initial_reward as nat
    } else {
        rem
    }
}

/// Base reward of the next block given the supply emitted so far.
pub fn calculate_expected_block_reward(emitted_supply: u64, config: &RewardConfig) -> (r: u64)
    ensures
        r as nat == expected_block_reward(emitted_supply as nat, *config),
{
    let mining: u64 = config.total_supply.saturating_sub(config.genesis_allocation);
    let rem: u64 = mining.saturating_sub(emitted_supply);
    if config.initial_reward <= rem {
        config.initial_reward
    } else {
        rem
    }
}

} // verus!
