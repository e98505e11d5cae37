//! Lifecycle events and the per-run event log.
//!
//! The core produces ordered batches of five event kinds; an external
//! logger or exporter consumes them. Identifiers are the registry's stable
//! integer handles.

use vstd::prelude::*;

verus! {

/// A new individual entered the registry.
#[derive(Clone, Copy, Debug, PartialEq, Eq, Structural)]
pub struct BirthEvent {
    pub child_entity: usize,
    pub mother_entity: Option<usize>,
    pub time: u64,
}

/// An individual crossed the death age and was removed.
#[derive(Clone, Copy, Debug, PartialEq, Eq, Structural)]
pub struct DeathEvent {
    pub entity: usize,
    pub age: u64,
    pub time: u64,
}

/// Two seekers were bound into a partnership.
#[derive(Clone, Copy, Debug, PartialEq, Eq, Structural)]
pub struct PartnerEvent {
    pub individual1: usize,
    pub individual2: usize,
    pub relationship_entity: usize,
    pub time: u64,
}

/// A partnership dissolved by the breakup hazard.
#[derive(Clone, Copy, Debug, PartialEq, Eq, Structural)]
pub struct BreakupEvent {
    pub individual1: usize,
    pub individual2: usize,
    pub relationship_entity: usize,
    pub time: u64,
}

/// A partnership ended because one member was removed; the survivor, if
/// any, is widowed.
#[derive(Clone, Copy, Debug, PartialEq, Eq, Structural)]
pub struct WidowEvent {
    pub widow_entity: usize,
    pub deceased_entity: usize,
    pub relationship_entity: usize,
    pub time: u64,
}

/// Everything the simulation has emitted so far, one vector per kind,
/// each in emission order.
#[derive(Clone, Debug)]
pub struct EventLog {
    pub births: Vec<BirthEvent>,
    pub deaths: Vec<DeathEvent>,
    pub partnerships: Vec<PartnerEvent>,
    pub breakups: Vec<BreakupEvent>,
    pub widowings: Vec<WidowEvent>,
}

impl Default for EventLog {
    fn default() -> (r: Self)
        ensures
            r.births@ == Seq::<BirthEvent>::empty(),
            r.deaths@ == Seq::<DeathEvent>::empty(),
            r.partnerships@ == Seq::<PartnerEvent>::empty(),
            r.breakups@ == Seq::<BreakupEvent>::empty(),
            r.widowings@ == Seq::<WidowEvent>::empty(),
    {
        EventLog {
            births: Vec::new(),
            deaths: Vec::new(),
            partnerships: Vec::new(),
            breakups: Vec::new(),
            widowings: Vec::new(),
        }
    }
}

} // verus!
