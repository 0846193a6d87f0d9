use vstd::prelude::*;

verus! {

/// A non-negative rational number `num / den`.
#[derive(Clone, Copy, Debug, PartialEq, Eq, Structural)]
pub struct Rational {
    pub num: u32,
    pub den: u32,
}

impl Rational {
    pub open spec fn wf(self) -> bool {
        self.den > 0
    }

    /// The whole part, `floor(num / den)`.
    pub open spec fn floor_spec(self) -> int {
        self.num as int / self.den as int
    }

    /// The remainder over `den` of the fractional part.
    pub open spec fn rem_spec(self) -> int {
        self.num as int % self.den as int
    }

    pub fn new(num: u32, den: u32) -> (r: Rational)
        ensures
            r.num == num,
            r.den == den,
    {
        Rational { num, den }
    }
}

/// What a run is configured with.
#[derive(Clone, Copy, Debug, PartialEq, Eq)]
pub struct SimParams {
    pub total_population: u32,
    pub avg_connections: Rational,
    pub within_ratio: Rational,
    pub max_years: u32,
    pub track_ancestors: bool,
    pub seed: Option<u64>,
}

impl SimParams {
    pub open spec fn wf(self) -> bool {
        &&& self.total_population > 0
        &&& self.avg_connections.wf()
        &&& self.within_ratio.wf()
    }
}

/// Why a configuration is refused before a run starts.
#[derive(Clone, Copy, Debug, PartialEq, Eq, Structural)]
pub enum SimError {
    /// The population is empty.
    EmptyPopulation,
    /// A rational parameter has a zero denominator.
    ZeroDenominator,
}

} // verus!
