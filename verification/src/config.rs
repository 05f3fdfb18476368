//! Tunable parameters of the engine, as plain integers and ratios.
use vstd::prelude::*;

verus! {

/// A fraction in the half-open interval from zero (excluded) to one (included).
#[derive(Clone, Copy, Debug)]
pub struct Ratio {
    num: u64,
    den: u64,
}

impl Ratio {
    #[verifier::type_invariant]
    spec fn proper(self) -> bool {
        0 < self.num <= self.den
    }

    /// The numerator.
    pub closed spec fn numer(self) -> nat {
        self.num as nat
    }

    /// The denominator.
    pub closed spec fn denom(self) -> nat {
        self.den as nat
    }

    /// `num / den`, or nothing unless `0 < num <= den`.
    pub fn new(num: u64, den: u64) -> (r: Option<Ratio>)
        ensures
            r.is_some() == (0 < num <= den),
            r matches Some(q) ==> q.numer() == num && q.denom() == den,
    {
        if 0 < num && num <= den {
            Some(Ratio { num, den })
        } else {
            None
        }
    }

    /// The whole: one over one.
    pub fn one() -> (r: Ratio)
        ensures
            r.numer() == 1,
            r.denom() == 1,
    {
        Ratio { num: 1, den: 1 }
    }

    /// The numerator, as stored.
    pub fn numerator(&self) -> (n: u64)
        ensures
            n == self.numer(),
            0 < n <= self.denom(),
    {
        proof {
            use_type_invariant(self);
        }
        self.num
    }

    /// The denominator, as stored.
    pub fn denominator(&self) -> (n: u64)
        ensures
            n == self.denom(),
            0 < self.numer() <= n,
    {
        proof {
            use_type_invariant(self);
        }
        self.den
    }

    /// The share of `n` rounded up to a whole number.
    pub open spec fn ceil_of(self, n: nat) -> nat {
        ((n * self.numer() + self.denom() - 1) / (self.denom() as int)) as nat
    }

    /// The share of `n` rounded down to a whole number.
    pub open spec fn floor_of(self, n: nat) -> nat {
        (n * self.numer()) / self.denom()
    }

    /// `ceil(n * num / den)`.
    pub fn scale_up(&self, n: usize) -> (r: usize)
        ensures
            r == self.ceil_of(n as nat),
            r <= n,
            n > 0 ==> r > 0,
    {
        proof {
            use_type_invariant(self);
        }
        let num: u128 = self.num as u128;
        let den: u128 = self.den as u128;
        let wide: u128 = n as u128;
        assert(wide * num <= 0xffff_ffff_ffff_ffff * 0xffff_ffff_ffff_ffff) by (nonlinear_arith)
            requires
                wide <= 0xffff_ffff_ffff_ffff,
                num <= 0xffff_ffff_ffff_ffff,
        ;
        let top: u128 = wide * num + den - 1;
        let r: u128 = top / den;
        assert(r <= wide && (wide > 0 ==> r > 0)) by (nonlinear_arith)
            requires
                r == (wide * num + den - 1) / (den as int),
                0 < num <= den,
        ;
        r as usize
    }

    /// `floor(n * num / den)`.
    pub fn scale_down(&self, n: usize) -> (r: usize)
        ensures
            r == self.floor_of(n as nat),
            r <= n,
    {
        proof {
            use_type_invariant(self);
        }
        let num: u128 = self.num as u128;
        let den: u128 = self.den as u128;
        let wide: u128 = n as u128;
        assert(wide * num <= 0xffff_ffff_ffff_ffff * 0xffff_ffff_ffff_ffff) by (nonlinear_arith)
            requires
                wide <= 0xffff_ffff_ffff_ffff,
                num <= 0xffff_ffff_ffff_ffff,
        ;
        let r: u128 = (wide * num) / den;
        assert(r <= wide) by (nonlinear_arith)
            requires
                r == (wide * num) / (den as int),
                0 < num <= den,
        ;
        r as usize
    }
}

/// Settings of the chunked matrices.
#[derive(Clone, Copy, Debug)]
pub struct MatrixConfig {
    allow_chunk_optimization: bool,
    chunk_size_threshold: Ratio,
    partial_users_chunk_size: usize,
}

impl MatrixConfig {
    #[verifier::type_invariant]
    spec fn well_formed(self) -> bool {
        self.partial_users_chunk_size > 0
    }

    /// The settings, or nothing where the batch size for mean fetches is zero.
    pub fn new(
        allow_chunk_optimization: bool,
        chunk_size_threshold: Ratio,
        partial_users_chunk_size: usize,
    ) -> (r: Option<MatrixConfig>)
        ensures
            r.is_some() == (partial_users_chunk_size > 0),
            r matches Some(c) ==> c.optimizes() == allow_chunk_optimization && c.threshold()
                == chunk_size_threshold && c.batch() == partial_users_chunk_size,
    {
        if partial_users_chunk_size > 0 {
            Some(
                MatrixConfig {
                    allow_chunk_optimization,
                    chunk_size_threshold,
                    partial_users_chunk_size,
                },
            )
        } else {
            None
        }
    }

    /// Whether chunk sizes may be shrunk to fit.
    pub closed spec fn optimizes(self) -> bool {
        self.allow_chunk_optimization
    }

    /// The target fraction of the initial rating count of a tile.
    pub closed spec fn threshold(self) -> Ratio {
        self.chunk_size_threshold
    }

    /// How many users one mean fetch asks for.
    pub closed spec fn batch(self) -> nat {
        self.partial_users_chunk_size as nat
    }

    /// Whether chunk sizes may be shrunk to fit.
    pub fn allow_chunk_optimization(&self) -> (b: bool)
        ensures
            b == self.optimizes(),
    {
        self.allow_chunk_optimization
    }

    /// The target fraction of the initial rating count of a tile.
    pub fn chunk_size_threshold(&self) -> (r: Ratio)
        ensures
            r == self.threshold(),
    {
        self.chunk_size_threshold
    }

    /// How many users one mean fetch asks for; never zero.
    pub fn partial_users_chunk_size(&self) -> (n: usize)
        ensures
            n == self.batch(),
            n > 0,
    {
        proof {
            use_type_invariant(self);
        }
        self.partial_users_chunk_size
    }
}

/// Settings of the engine.
#[derive(Clone, Copy, Debug)]
pub struct Config {
    /// The settings of the chunked matrices.
    pub sim_matrix: MatrixConfig,
    /// The soft maximum of cached means.
    pub mean_cache_max_entries: usize,
    /// The share of the soft maximum that a shrink of the cache leaves.
    pub mean_cache_keep_ratio: Ratio,
}

} // verus!
