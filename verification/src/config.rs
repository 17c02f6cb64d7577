//! Game and solver configuration and their validation.

use vstd::prelude::*;

verus! {

/// Configuration of a heads-up No-Limit Hold'em game.
#[derive(Debug, Clone, Copy, PartialEq, Eq)]
pub struct GameConfig {
    /// Initial stack sizes for both players [SB, BB].
    pub initial_stacks: [u64; 2],
    /// Small blind amount.
    pub small_blind: u64,
    /// Big blind amount.
    pub big_blind: u64,
    /// Minimum bet/raise size.
    pub min_bet: u64,
}

/// Errors found when validating a game configuration.
#[derive(Debug, Clone, Copy, PartialEq, Eq, Structural)]
pub enum ConfigError {
    /// Stack sizes must be positive.
    InvalidStacks,
    /// Blind amounts must be positive.
    InvalidBlinds,
    /// The big blind must be at least the small blind.
    InvalidBlindRatio,
    /// The minimum bet must be positive.
    InvalidMinBet,
}

impl GameConfig {
    /// The outcome of validation: the first rule that the configuration breaks.
    pub open spec fn spec_validate(self) -> Result<(), ConfigError> {
        if self.initial_stacks[0] == 0 || self.initial_stacks[1] == 0 {
            Err(ConfigError::InvalidStacks)
        } else if self.small_blind == 0 || self.big_blind == 0 {
            Err(ConfigError::InvalidBlinds)
        } else if self.big_blind < self.small_blind {
            Err(ConfigError::InvalidBlindRatio)
        } else if self.min_bet == 0 {
            Err(ConfigError::InvalidMinBet)
        } else {
            Ok(())
        }
    }

    /// Validates the game configuration: stacks, blinds and minimum bet must be
    /// positive and the big blind at least the small blind.
    pub fn validate(&self) -> (res: Result<(), ConfigError>)
        ensures
            res == self.spec_validate(),
    {
        if self.initial_stacks[0] == 0 || self.initial_stacks[1] == 0 {
            return Err(ConfigError::InvalidStacks);
        }
        if self.small_blind == 0 || self.big_blind == 0 {
            return Err(ConfigError::InvalidBlinds);
        }
        if self.big_blind < self.small_blind {
            return Err(ConfigError::InvalidBlindRatio);
        }
        if self.min_bet == 0 {
            return Err(ConfigError::InvalidMinBet);
        }
        Ok(())
    }
}

impl Default for GameConfig {
    /// Stacks of 1000, blinds 1/2, minimum bet 2.
    fn default() -> (c: Self)
        ensures
            c.initial_stacks[0] == 1000,
            c.initial_stacks[1] == 1000,
            c.small_blind == 1,
            c.big_blind == 2,
            c.min_bet == 2,
    {
        GameConfig { initial_stacks: [1000, 1000], small_blind: 1, big_blind: 2, min_bet: 2 }
    }
}

/// Errors found when validating a solver configuration.
#[derive(Debug, Clone, Copy, PartialEq, Eq, Structural)]
pub enum CFRConfigError {
    /// The number of iterations must be positive.
    InvalidNumIterations,
    /// The log interval must be positive.
    InvalidLogInterval,
    /// The save interval must be positive.
    InvalidSaveInterval,
    /// The convergence threshold must not be negative.
    InvalidConvergenceThreshold,
}

/// Sign bit of an IEEE-754 double.
pub const F64_SIGN_BIT: u64 = 0x8000_0000_0000_0000;

/// Exponent bits of an IEEE-754 double.
pub const F64_EXPONENT_BITS: u64 = 0x7FF0_0000_0000_0000;

/// Mantissa bits of an IEEE-754 double.
pub const F64_MANTISSA_BITS: u64 = 0x000F_FFFF_FFFF_FFFF;

/// The double with bit pattern `bits` is a NaN.
pub open spec fn f64_bits_is_nan(bits: u64) -> bool {
    (bits & F64_EXPONENT_BITS) == F64_EXPONENT_BITS && (bits & F64_MANTISSA_BITS) != 0
}

/// The double with bit pattern `bits` compares below `0.0`: its sign is set,
/// it is not `-0.0` and it is not a NaN.
pub open spec fn f64_bits_is_negative(bits: u64) -> bool {
    &&& (bits & F64_SIGN_BIT) != 0
    &&& (bits & !F64_SIGN_BIT) != 0
    &&& !f64_bits_is_nan(bits)
}

/// Configuration of the CFR+ solver.
#[derive(Debug, Clone)]
pub struct CFRConfig {
    /// Number of CFR iterations to run.
    pub num_iterations: usize,
    /// How often to log progress (in iterations).
    pub log_interval: usize,
    /// How often to save the strategy (in iterations).
    pub save_interval: usize,
    /// Path to save the strategy to, if any.
    pub save_path: Option<String>,
    /// Whether to sample card deals instead of enumerating them.
    pub use_chance_sampling: bool,
    /// Deals sampled per iteration (0: one per worker thread).
    pub samples_per_iteration: usize,
    /// How often to estimate exploitability (0: never).
    pub exploitability_interval: usize,
    /// Exploitability at which solving stops early (0.0: never), held as the
    /// bit pattern of the `f64` (`f64::to_bits`).
    pub convergence_threshold: u64,
}

impl CFRConfig {
    /// The outcome of validation: the first rule that the configuration breaks.
    pub open spec fn spec_validate(&self) -> Result<(), CFRConfigError> {
        if self.num_iterations == 0 {
            Err(CFRConfigError::InvalidNumIterations)
        } else if self.log_interval == 0 {
            Err(CFRConfigError::InvalidLogInterval)
        } else if self.save_interval == 0 {
            Err(CFRConfigError::InvalidSaveInterval)
        } else if f64_bits_is_negative(self.convergence_threshold) {
            Err(CFRConfigError::InvalidConvergenceThreshold)
        } else {
            Ok(())
        }
    }

    /// Validates the solver configuration: iterations and intervals must be
    /// positive and the convergence threshold must not be negative.
    pub fn validate(&self) -> (res: Result<(), CFRConfigError>)
        ensures
            res == self.spec_validate(),
    {
        if self.num_iterations == 0 {
            return Err(CFRConfigError::InvalidNumIterations);
        }
        if self.log_interval == 0 {
            return Err(CFRConfigError::InvalidLogInterval);
        }
        if self.save_interval == 0 {
            return Err(CFRConfigError::InvalidSaveInterval);
        }
        let bits = self.convergence_threshold;
        let negative = (bits & F64_SIGN_BIT) != 0 && (bits & !F64_SIGN_BIT) != 0 && !((bits
            & F64_EXPONENT_BITS) == F64_EXPONENT_BITS && (bits & F64_MANTISSA_BITS) != 0);
        if negative {
            return Err(CFRConfigError::InvalidConvergenceThreshold);
        }
        Ok(())
    }
}

impl Default for CFRConfig {
    /// 100 sampled iterations, logging every 10, saving every 50, no save path,
    /// no exploitability checks and no early stop.
    fn default() -> (c: Self)
        ensures
            c.num_iterations == 100,
            c.log_interval == 10,
            c.save_interval == 50,
            c.save_path is None,
            c.use_chance_sampling,
            c.samples_per_iteration == 0,
            c.exploitability_interval == 0,
            c.convergence_threshold == 0,
    {
        CFRConfig {
            num_iterations: 100,
            log_interval: 10,
            save_interval: 50,
            save_path: None,
            use_chance_sampling: true,
            samples_per_iteration: 0,
            exploitability_interval: 0,
            convergence_threshold: 0,
        }
    }
}

} // verus!
