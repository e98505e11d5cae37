//! Simulation configuration: ages, rates and durations.
//!
//! All simulated time is measured in integer time units, with
//! [`TIME_UNITS_PER_YEAR`] units to a year. The value 780 is divisible by
//! 12, 4, 52 and 10, so monthly, quarterly and weekly cadences, as well as
//! tenths of a year, are exact unit counts. Annualized hazard rates are
//! stored per time unit in the fixed-point format of [`crate::hazard`].

use vstd::prelude::*;

verus! {

/// Number of integer time units in one simulated year.
pub const TIME_UNITS_PER_YEAR: u64 = 780;

/// Configurable rates and thresholds for a simulation run.
///
/// Ages and durations are in time units; `conception_rate` and
/// `breakup_rate` are annualized hazards converted to fixed-point
/// per-time-unit rates (see [`rate_per_year`]).
#[derive(Clone, Copy, Debug, PartialEq, Eq, Structural)]
pub struct SimulationParameters {
    /// An individual whose age exceeds this threshold is removed.
    pub death_age: u64,
    /// Crossing this age makes an individual an adult, eligible to seek.
    pub min_partner_seeking_age: u64,
    /// Crossing this age makes an individual an elder, no longer eligible.
    pub max_partner_seeking_age: u64,
    /// Age given to manually added individuals.
    pub spawn_individual_age: u64,
    /// Conception is possible from this age (inclusive).
    pub min_conception_age: u64,
    /// Conception is possible up to this age (exclusive).
    pub max_conception_age: u64,
    /// Per-time-unit conception hazard, fixed-point.
    pub conception_rate: u64,
    /// Time units between conception and birth.
    pub gestation_duration: u64,
    /// Per-time-unit breakup hazard, fixed-point.
    pub breakup_rate: u64,
}

/// A configuration rejected before any tick runs.
#[derive(Clone, Copy, Debug, PartialEq, Eq, Structural)]
pub enum ConfigError {
    /// A duration that must be positive is zero.
    NonPositiveDuration,
}

/// Fixed-point per-time-unit rate equal to `numer / denom` per year.
pub open spec fn rate_per_year_spec(numer: u64, denom: u64) -> u64
    recommends
        denom > 0,
{
    ((numer * 0x1_0000_0000) / (780 * denom)) as u64
}

/// Converts an annualized hazard of `numer / denom` events per year into
/// the fixed-point per-time-unit rate the simulation uses.
pub fn rate_per_year(numer: u64, denom: u64) -> (r: u64)
    requires
        numer <= 0x1_0000_0000,
        0 < denom <= 0xffff_ffff,
    ensures
        r == rate_per_year_spec(numer, denom),
{
    let wide: u128 = (numer as u128) * 0x1_0000_0000u128;
    let div: u128 = 780u128 * (denom as u128);
    let q: u128 = wide / div;
    proof {
        assert(wide <= 0x1_0000_0000_0000_0000u128) by (nonlinear_arith)
            requires
                wide == numer * 0x1_0000_0000,
                numer <= 0x1_0000_0000,
        ;
        assert(q <= wide / 780) by (nonlinear_arith)
            requires
                q == wide / div,
                div >= 780,
                wide >= 0,
        ;
        assert(q == numer * 0x1_0000_0000 / (780 * denom));
    }
    q as u64
}

/// Number of time units in `y` whole years.
pub fn years(y: u64) -> (r: u64)
    requires
        y <= 0xffff_ffff,
    ensures
        r == y * 780,
{
    y * 780
}

impl SimulationParameters {
    /// Rejects an out-of-range configuration before any tick runs; a valid
    /// configuration is returned untouched.
    pub fn validate(&self) -> (r: Result<(), ConfigError>)
        ensures
            r is Ok <==> self.gestation_duration > 0,
            r is Err ==> r->Err_0 == ConfigError::NonPositiveDuration,
    {
        if self.gestation_duration == 0 {
            Err(ConfigError::NonPositiveDuration)
        } else {
            Ok(())
        }
    }
}

impl Default for SimulationParameters {
    /// Default configuration: the annual-rate and age defaults of the
    /// simulator, expressed in time units (30-year death age, seeking
    /// between 20 and 50, conception between 25 and 35 at 0.5 per year,
    /// 40-week gestation, 0.1-per-year breakup hazard).
    fn default() -> (r: Self)
        ensures
            r.death_age == 23400,
            r.min_partner_seeking_age == 15600,
            r.max_partner_seeking_age == 39000,
            r.spawn_individual_age == 14040,
            r.min_conception_age == 19500,
            r.max_conception_age == 27300,
            r.conception_rate == rate_per_year_spec(1, 2),
            r.gestation_duration == 600,
            r.breakup_rate == rate_per_year_spec(1, 10),
    {
        SimulationParameters {
            death_age: 23400,
            min_partner_seeking_age: 15600,
            max_partner_seeking_age: 39000,
            spawn_individual_age: 14040,
            min_conception_age: 19500,
            max_conception_age: 27300,
            conception_rate: rate_per_year(1, 2),
            gestation_duration: 600,
            breakup_rate: rate_per_year(1, 10),
        }
    }
}

} // verus!
