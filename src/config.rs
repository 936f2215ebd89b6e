use vstd::prelude::*;

verus! {

/// Smallest accepted value of either size exponent.
pub const MIN_SZ2: u8 = 1;

/// Largest accepted value of either size exponent.
pub const MAX_SZ2: u8 = 16;

/// Why a configuration was refused; each variant carries the value given.
#[derive(Debug, Clone, Copy, PartialEq, Eq, Structural)]
pub enum ConfigError {
    WindowOutOfRange(u8),
    LookaheadOutOfRange(u8),
}

/// Tuning parameters shared by the encoder and the decoder: the window holds
/// `1 << window_sz2` bytes, a back-reference copies at most
/// `1 << lookahead_sz2` bytes.
#[derive(Debug, Clone, Copy, PartialEq, Eq, Structural)]
pub struct Config {
    pub(crate) window_sz2: u8,
    pub(crate) lookahead_sz2: u8,
}

pub open spec fn sz2_in_range(v: int) -> bool {
    MIN_SZ2 <= v <= MAX_SZ2
}

impl Config {
    #[verifier::type_invariant]
    pub(crate) open spec fn exponents_in_range(self) -> bool {
        self.wf()
    }

    /// Both exponents lie in the accepted range.
    pub open spec fn wf(&self) -> bool {
        sz2_in_range(self.window_bits() as int) && sz2_in_range(self.lookahead_bits() as int)
    }

    /// The window exponent.
    pub closed spec fn window_bits(&self) -> nat {
        self.window_sz2 as nat
    }

    /// The lookahead exponent.
    pub closed spec fn lookahead_bits(&self) -> nat {
        self.lookahead_sz2 as nat
    }

    /// A configuration with the given window and lookahead exponents.
    pub fn new(window_sz2: u8, lookahead_sz2: u8) -> (r: Result<Self, ConfigError>)
        ensures
            sz2_in_range(window_sz2 as int) && sz2_in_range(lookahead_sz2 as int) <==> r.is_ok(),
            r.is_ok() ==> r.unwrap().window_bits() == window_sz2 && r.unwrap().lookahead_bits()
                == lookahead_sz2,
            !sz2_in_range(window_sz2 as int) ==> r == Err::<Self, ConfigError>(
                ConfigError::WindowOutOfRange(window_sz2),
            ),
            sz2_in_range(window_sz2 as int) && !sz2_in_range(lookahead_sz2 as int) ==> r == Err::<
                Self,
                ConfigError,
            >(ConfigError::LookaheadOutOfRange(lookahead_sz2)),
    {
        match Config::default().with_window(window_sz2) {
            Ok(c) => c.with_lookahead(lookahead_sz2),
            Err(e) => Err(e),
        }
    }

    /// This configuration with another window exponent, which must lie in `1..=16`.
    pub fn with_window(self, window_sz2: u8) -> (r: Result<Self, ConfigError>)
        ensures
            sz2_in_range(window_sz2 as int) ==> r.is_ok() && r.unwrap().window_bits() == window_sz2
                && r.unwrap().lookahead_bits() == self.lookahead_bits(),
            !sz2_in_range(window_sz2 as int) ==> r == Err::<Self, ConfigError>(
                ConfigError::WindowOutOfRange(window_sz2),
            ),
    {
        if window_sz2 > MAX_SZ2 || window_sz2 < MIN_SZ2 {
            Err(ConfigError::WindowOutOfRange(window_sz2))
        } else {
            proof {
                use_type_invariant(&self);
            }
            Ok(Config { window_sz2, lookahead_sz2: self.lookahead_sz2 })
        }
    }

    /// This configuration with another lookahead exponent, which must lie in `1..=16`.
    pub fn with_lookahead(self, lookahead_sz2: u8) -> (r: Result<Self, ConfigError>)
        ensures
            sz2_in_range(lookahead_sz2 as int) ==> r.is_ok() && r.unwrap().window_bits()
                == self.window_bits() && r.unwrap().lookahead_bits() == lookahead_sz2,
            !sz2_in_range(lookahead_sz2 as int) ==> r == Err::<Self, ConfigError>(
                ConfigError::LookaheadOutOfRange(lookahead_sz2),
            ),
    {
        if lookahead_sz2 > MAX_SZ2 || lookahead_sz2 < MIN_SZ2 {
            Err(ConfigError::LookaheadOutOfRange(lookahead_sz2))
        } else {
            proof {
                use_type_invariant(&self);
            }
            Ok(Config { window_sz2: self.window_sz2, lookahead_sz2 })
        }
    }

    /// The window exponent.
    pub fn window_sz2(&self) -> (r: u8)
        ensures
            r == self.window_bits(),
    {
        self.window_sz2
    }

    /// The lookahead exponent.
    pub fn lookahead_sz2(&self) -> (r: u8)
        ensures
            r == self.lookahead_bits(),
    {
        self.lookahead_sz2
    }
}

impl Default for Config {
    /// Window exponent 11, lookahead exponent 4.
    fn default() -> (r: Self)
        ensures
            r.window_bits() == 11 && r.lookahead_bits() == 4,
    {
        Config { window_sz2: 11, lookahead_sz2: 4 }
    }
}

} // verus!
