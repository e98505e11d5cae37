//! Individuals: demographics, life-stage flags, and the demographic engine.

use vstd::prelude::*;

use crate::config::SimulationParameters;
use crate::events::{BirthEvent, DeathEvent};
use crate::hazard::{random_bool, random_u64_below};
use crate::partner::WidowNotice;
use crate::sim::{
    lemma_contains_prefix, lemma_prefix_push, lemma_prefix_trans, lemma_wf_record_update,
    lemma_wf_views, lemma_widow_pending_prefix, Simulation,
};

verus! {

/// Timestep of the aging pass: one month.
pub const AGING_TIMESTEP: u64 = 65;

/// Biological sex, fixed at birth.
#[derive(Clone, Copy, Debug, PartialEq, Eq, Structural)]
pub enum Sex {
    Female,
    Male,
}

impl Default for Sex {
    fn default() -> (r: Self)
        ensures
            r == Sex::Female,
    {
        Sex::Female
    }
}

/// Core demographics: age in time units, and sex.
#[derive(Clone, Copy, Debug, PartialEq, Eq, Structural)]
pub struct Demog {
    pub age: u64,
    pub sex: Sex,
}

/// One registry record: demographics, derived life-stage flags, the
/// immutable mother reference, and the current partnership and gestation
/// attachments.
#[derive(Clone, Copy, Debug, PartialEq, Eq, Structural)]
pub struct Individual {
    pub demog: Demog,
    /// Set at birth, immutable; `None` for seeded individuals.
    pub mother: Option<usize>,
    /// Derived flag: the age crossed the minimum partner-seeking age.
    pub adult: bool,
    /// Derived flag: the age crossed the maximum partner-seeking age.
    pub elder: bool,
    /// Whether the individual is queued for partner matching.
    pub seeking: bool,
    /// Identifier of the active partnership, if any.
    pub partnership: Option<usize>,
    /// Remaining gestation in time units, if currently gestating.
    pub gestation: Option<u64>,
}

/// A uniformly random sex, as assigned at birth.
pub fn random_sex() -> (s: Sex)
    ensures
        s == Sex::Female || s == Sex::Male,
{
    if random_bool() {
        Sex::Male
    } else {
        Sex::Female
    }
}

/// Sum capped at the largest representable age.
pub open spec fn sat_add(a: u64, b: u64) -> u64 {
    if a + b <= u64::MAX {
        (a + b) as u64
    } else {
        u64::MAX
    }
}

/// One aging step applied to a record: the age grows by `dt` and the
/// derived adult and elder flags fire, idempotently, when their strict
/// thresholds are crossed.
pub open spec fn aged(rec: Individual, dt: u64, params: SimulationParameters) -> Individual {
    let na = sat_add(rec.demog.age, dt);
    Individual {
        demog: Demog { age: na, sex: rec.demog.sex },
        adult: rec.adult || na > params.min_partner_seeking_age,
        elder: rec.elder || na > params.max_partner_seeking_age,
        ..rec
    }
}

/// Whether the aging step carries the record past the death age.
pub open spec fn dies(rec: Individual, dt: u64, params: SimulationParameters) -> bool {
    aged(rec, dt, params).demog.age > params.death_age
}

/// How many records of `s` an aging step by `dt` would remove.
pub open spec fn count_dying(
    s: Seq<Option<Individual>>,
    dt: u64,
    params: SimulationParameters,
) -> int
    decreases s.len(),
{
    if s.len() == 0 {
        0
    } else {
        count_dying(s.drop_last(), dt, params) + if s.last() is Some && dies(
            s.last()->Some_0,
            dt,
            params,
        ) {
            1int
        } else {
            0int
        }
    }
}

/// Whether the stop query fires: a time budget is set and spent.
pub fn check_simulation_end(elapsed: u64, limit: Option<u64>) -> (r: bool)
    ensures
        r <==> (limit is Some && elapsed >= limit->Some_0),
{
    match limit {
        Some(t) => elapsed >= t,
        None => false,
    }
}

impl Simulation {
    /// Creates a new individual of uniformly random sex, inserts it into
    /// the registry and emits a `Birth` event. Serves manual additions and
    /// the gestation pipeline alike. An immediate lookup of the returned
    /// identifier yields a record with exactly the given age and mother.
    pub fn spawn_individual(&mut self, age: u64, mother: Option<usize>) -> (id: usize)
        requires
            old(self).wf(),
        ensures
            final(self).wf(),
            id as int == old(self).n_ids(),
            final(self).n_ids() == old(self).n_ids() + 1,
            final(self).alive(id as int),
            final(self).ind(id as int).demog.age == age,
            final(self).ind(id as int).mother == mother,
            !final(self).ind(id as int).adult,
            !final(self).ind(id as int).elder,
            !final(self).ind(id as int).seeking,
            final(self).ind(id as int).partnership is None,
            final(self).ind(id as int).gestation is None,
            forall|i: int|
                0 <= i < old(self).n_ids() ==> final(self).individuals@[i] == old(
                    self,
                ).individuals@[i],
            old(self).same_market_views(*final(self)),
            final(self).log.births@ == old(self).log.births@.push(
                BirthEvent { child_entity: id, mother_entity: mother, time: old(self).time },
            ),
            final(self).log.deaths == old(self).log.deaths,
            final(self).log.partnerships == old(self).log.partnerships,
            final(self).log.breakups == old(self).log.breakups,
            final(self).log.widowings == old(self).log.widowings,
            final(self).params == old(self).params,
            final(self).time == old(self).time,
    {
        let sex = random_sex();
        let rec = Individual {
            demog: Demog { age, sex },
            mother,
            adult: false,
            elder: false,
            seeking: false,
            partnership: None,
            gestation: None,
        };
        let id = self.insert_individual(rec);
        let ghost mid = *self;
        self.log.births.push(BirthEvent { child_entity: id, mother_entity: mother, time: self.time });
        proof {
            lemma_wf_views(mid, *self);
        }
        id
    }

    /// The aging pass: every living individual ages by `dt`; crossing the
    /// minimum seeking age sets the adult flag and crossing the maximum
    /// sets the elder flag, each exactly once; crossing the death age
    /// emits a `Death` event and removes the individual, publishing a
    /// removal notice for any partnership it leaves dangling. Ages never
    /// decrease, and no record above the death age survives the pass.
    pub fn update_age(&mut self, dt: u64)
        requires
            old(self).wf(),
        ensures
            final(self).wf(),
            final(self).n_ids() == old(self).n_ids(),
            forall|i: int|
                old(self).alive(i) && !dies(old(self).ind(i), dt, old(self).params)
                    ==> final(self).individuals@[i] == Some(
                    aged(old(self).ind(i), dt, old(self).params),
                ),
            forall|i: int|
                old(self).alive(i) && dies(old(self).ind(i), dt, old(self).params) ==> final(self).individuals@[i] is None,
            forall|i: int|
                0 <= i < old(self).n_ids() && !old(self).alive(i) ==> final(self).individuals@[i]
                    == old(self).individuals@[i],
            // ages never decrease, and nobody above the death age survives
            forall|i: int|
                final(self).alive(i) ==> old(self).alive(i) && final(self).ind(i).demog.age >= old(
                    self,
                ).ind(i).demog.age,
            forall|i: int|
                final(self).alive(i) ==> final(self).ind(i).demog.age <= old(self).params.death_age,
            final(self).relationships == old(self).relationships,
            final(self).seekers.females == old(self).seekers.females,
            final(self).seekers.males == old(self).seekers.males,
            final(self).pending_matches == old(self).pending_matches,
            // removal notices are published for every death that leaves a
            // partnership behind
            old(self).pending_widows@.is_prefix_of(final(self).pending_widows@),
            forall|i: int|
                old(self).alive(i) && dies(old(self).ind(i), dt, old(self).params) && old(
                    self,
                ).ind(i).partnership is Some ==> final(self).widow_pending(
                    i,
                    old(self).ind(i).partnership->Some_0 as int,
                ),
            // one death event per removal, carrying the crossing age
            final(self).log.deaths@.len() == old(self).log.deaths@.len() + count_dying(
                old(self).individuals@,
                dt,
                old(self).params,
            ),
            old(self).log.deaths@.is_prefix_of(final(self).log.deaths@),
            forall|i: int|
                old(self).alive(i) && dies(old(self).ind(i), dt, old(self).params) ==> final(self).log.deaths@.contains(
                    DeathEvent {
                        entity: i as usize,
                        age: aged(old(self).ind(i), dt, old(self).params).demog.age,
                        time: old(self).time,
                    },
                ),
            final(self).log.births == old(self).log.births,
            final(self).log.partnerships == old(self).log.partnerships,
            final(self).log.breakups == old(self).log.breakups,
            final(self).log.widowings == old(self).log.widowings,
            final(self).params == old(self).params,
            final(self).time == old(self).time,
    {
        let n = self.individuals.len();
        let mut id: usize = 0;
        while id < n
            invariant
                self.wf(),
                id <= n,
                n == old(self).individuals@.len(),
                self.individuals@.len() == n,
                self.params == old(self).params,
                self.time == old(self).time,
                forall|i: int|
                    id <= i < n ==> self.individuals@[i] == old(self).individuals@[i],
                forall|i: int|
                    0 <= i < id && old(self).alive(i) && !dies(old(self).ind(i), dt, old(self).params)
                        ==> self.individuals@[i] == Some(aged(old(self).ind(i), dt, old(self).params)),
                forall|i: int|
                    0 <= i < id && old(self).alive(i) && dies(old(self).ind(i), dt, old(self).params)
                        ==> self.individuals@[i] is None,
                forall|i: int|
                    0 <= i < id && !old(self).alive(i) ==> self.individuals@[i] == old(
                        self,
                    ).individuals@[i],
                self.relationships == old(self).relationships,
                self.seekers.females == old(self).seekers.females,
                self.seekers.males == old(self).seekers.males,
                self.pending_matches == old(self).pending_matches,
                old(self).pending_widows@.is_prefix_of(self.pending_widows@),
                forall|i: int|
                    0 <= i < id && old(self).alive(i) && dies(old(self).ind(i), dt, old(self).params)
                        && old(self).ind(i).partnership is Some ==> self.widow_pending(
                        i,
                        old(self).ind(i).partnership->Some_0 as int,
                    ),
                self.log.deaths@.len() == old(self).log.deaths@.len() + count_dying(
                    old(self).individuals@.take(id as int),
                    dt,
                    old(self).params,
                ),
                old(self).log.deaths@.is_prefix_of(self.log.deaths@),
                forall|i: int|
                    0 <= i < id && old(self).alive(i) && dies(old(self).ind(i), dt, old(self).params)
                        ==> self.log.deaths@.contains(
                        DeathEvent {
                            entity: i as usize,
                            age: aged(old(self).ind(i), dt, old(self).params).demog.age,
                            time: old(self).time,
                        },
                    ),
                self.log.births == old(self).log.births,
                self.log.partnerships == old(self).log.partnerships,
                self.log.breakups == old(self).log.breakups,
                self.log.widowings == old(self).log.widowings,
            decreases n - id,
        {
            let ghost prefix = old(self).individuals@.take(id as int);
            let ghost at_start = *self;
            let slot = self.individuals[id];
            if let Some(rec) = slot {
                assert(rec == old(self).ind(id as int));
                let na = if rec.demog.age <= u64::MAX - dt {
                    rec.demog.age + dt
                } else {
                    u64::MAX
                };
                let newrec = Individual {
                    demog: Demog { age: na, sex: rec.demog.sex },
                    adult: rec.adult || na > self.params.min_partner_seeking_age,
                    elder: rec.elder || na > self.params.max_partner_seeking_age,
                    ..rec
                };
                assert(newrec == aged(rec, dt, old(self).params));
                if na > self.params.death_age {
                    let ghost before = *self;
                    self.log.deaths.push(DeathEvent { entity: id, age: na, time: self.time });
                    proof {
                        lemma_wf_views(before, *self);
                        lemma_prefix_push(before.log.deaths@, DeathEvent { entity: id, age: na, time: before.time });
                    }
                    let ghost mid = *self;
                    self.remove_individual(id);
                    proof {
                        assert(mid.ind(id as int) == rec);
                        if rec.partnership is Some {
                            let k = self.pending_widows@.len() - 1;
                            assert(self.pending_widows@[k] == (WidowNotice {
                                deceased: id,
                                relationship: rec.partnership->Some_0,
                            }));
                            assert(self.widow_pending(id as int, rec.partnership->Some_0 as int));
                            lemma_prefix_push(mid.pending_widows@, WidowNotice {
                                deceased: id,
                                relationship: rec.partnership->Some_0,
                            });
                        }
                        assert(self.log.deaths@[mid.log.deaths@.len() - 1] == (DeathEvent {
                            entity: id,
                            age: na,
                            time: old(self).time,
                        }));
                        assert(self.log.deaths@.contains(DeathEvent {
                            entity: id,
                            age: na,
                            time: old(self).time,
                        }));
                    }
                } else {
                    let ghost before = *self;
                    self.individuals.set(id, Some(newrec));
                    proof {
                        assert(before.alive(id as int));
                        assert(before.ind_wf(id as int));
                        lemma_wf_record_update(before, *self, id as int, newrec);
                    }
                }
            }
            proof {
                assert(old(self).individuals@.take(id + 1 as int).drop_last() =~= prefix);
                assert(old(self).individuals@.take(id + 1 as int).last() == old(
                    self,
                ).individuals@[id as int]);
                assert(at_start.pending_widows@.is_prefix_of(self.pending_widows@)) by {
                    if self.pending_widows@ != at_start.pending_widows@ {
                    } else {
                        assert(at_start.pending_widows@ =~= self.pending_widows@.subrange(
                            0,
                            at_start.pending_widows@.len() as int,
                        ));
                    }
                }
                assert(at_start.log.deaths@.is_prefix_of(self.log.deaths@)) by {
                    if self.log.deaths@ != at_start.log.deaths@ {
                    } else {
                        assert(at_start.log.deaths@ =~= self.log.deaths@.subrange(
                            0,
                            at_start.log.deaths@.len() as int,
                        ));
                    }
                }
                lemma_prefix_trans(
                    old(self).pending_widows@,
                    at_start.pending_widows@,
                    self.pending_widows@,
                );
                lemma_prefix_trans(old(self).log.deaths@, at_start.log.deaths@, self.log.deaths@);
                assert forall|i: int|
                    0 <= i < id + 1 && old(self).alive(i) && dies(
                        old(self).ind(i),
                        dt,
                        old(self).params,
                    ) && old(self).ind(i).partnership is Some implies self.widow_pending(
                    i,
                    old(self).ind(i).partnership->Some_0 as int,
                ) by {
                    if i < id {
                        lemma_widow_pending_prefix(
                            at_start,
                            *self,
                            i,
                            old(self).ind(i).partnership->Some_0 as int,
                        );
                    }
                }
                assert forall|i: int|
                    0 <= i < id + 1 && old(self).alive(i) && dies(
                        old(self).ind(i),
                        dt,
                        old(self).params,
                    ) implies self.log.deaths@.contains(
                    DeathEvent {
                        entity: i as usize,
                        age: aged(old(self).ind(i), dt, old(self).params).demog.age,
                        time: old(self).time,
                    },
                ) by {
                    if i < id {
                        lemma_contains_prefix(
                            at_start.log.deaths@,
                            self.log.deaths@,
                            DeathEvent {
                                entity: i as usize,
                                age: aged(old(self).ind(i), dt, old(self).params).demog.age,
                                time: old(self).time,
                            },
                        );
                    }
                }
            }
            id += 1;
        }
        proof {
            assert(old(self).individuals@.take(n as int) =~= old(self).individuals@);
            assert forall|i: int| self.alive(i) implies old(self).alive(i)
                && self.ind(i).demog.age >= old(self).ind(i).demog.age
                && self.ind(i).demog.age <= old(self).params.death_age by {
                assert(0 <= i < n);
                assert(old(self).alive(i));
                assert(!dies(old(self).ind(i), dt, old(self).params));
            }
        }
    }

    /// Seeds the simulation with `count` individuals of random sex and
    /// random age between 18 and 30 years, each entering through
    /// `spawn_individual` and so each logged as a birth.
    pub fn initial_population(&mut self, count: usize)
        requires
            old(self).wf(),
            old(self).n_ids() + count <= usize::MAX,
        ensures
            final(self).wf(),
            final(self).n_ids() == old(self).n_ids() + count,
            forall|i: int|
                0 <= i < old(self).n_ids() ==> final(self).individuals@[i] == old(
                    self,
                ).individuals@[i],
            forall|c: int|
                old(self).n_ids() <= c < final(self).n_ids() ==> {
                    &&& final(self).alive(c)
                    &&& 14040 <= final(self).ind(c).demog.age < 23400
                    &&& final(self).ind(c).mother is None
                    &&& final(self).ind(c).partnership is None
                    &&& final(self).ind(c).gestation is None
                    &&& !final(self).ind(c).adult
                    &&& !final(self).ind(c).elder
                    &&& !final(self).ind(c).seeking
                },
            old(self).same_market_views(*final(self)),
            final(self).log.births@.len() == old(self).log.births@.len() + count,
            old(self).log.births@.is_prefix_of(final(self).log.births@),
            final(self).log.deaths == old(self).log.deaths,
            final(self).log.partnerships == old(self).log.partnerships,
            final(self).log.breakups == old(self).log.breakups,
            final(self).log.widowings == old(self).log.widowings,
            final(self).params == old(self).params,
            final(self).time == old(self).time,
    {
        let mut k: usize = 0;
        while k < count
            invariant
                self.wf(),
                k <= count,
                old(self).n_ids() + count <= usize::MAX,
                self.individuals@.len() == old(self).individuals@.len() + k,
                forall|i: int|
                    0 <= i < old(self).n_ids() ==> self.individuals@[i] == old(
                        self,
                    ).individuals@[i],
                forall|c: int|
                    old(self).n_ids() <= c < self.n_ids() ==> {
                        &&& self.alive(c)
                        &&& 14040 <= self.ind(c).demog.age < 23400
                        &&& self.ind(c).mother is None
                        &&& self.ind(c).partnership is None
                        &&& self.ind(c).gestation is None
                        &&& !self.ind(c).adult
                        &&& !self.ind(c).elder
                        &&& !self.ind(c).seeking
                    },
                old(self).same_market_views(*self),
                self.log.births@.len() == old(self).log.births@.len() + k,
                old(self).log.births@.is_prefix_of(self.log.births@),
                self.log.deaths == old(self).log.deaths,
                self.log.partnerships == old(self).log.partnerships,
                self.log.breakups == old(self).log.breakups,
                self.log.widowings == old(self).log.widowings,
                self.params == old(self).params,
                self.time == old(self).time,
            decreases count - k,
        {
            let ghost prev = *self;
            // a uniformly random age from 18 up to 30 years
            let age = 14040 + random_u64_below(9360);
            let id = self.spawn_individual(age, None);
            proof {
                lemma_prefix_push(
                    prev.log.births@,
                    BirthEvent { child_entity: id, mother_entity: None, time: prev.time },
                );
                lemma_prefix_trans(old(self).log.births@, prev.log.births@, self.log.births@);
                assert forall|c: int| old(self).n_ids() <= c < self.n_ids() implies {
                    &&& self.alive(c)
                    &&& 14040 <= self.ind(c).demog.age < 23400
                    &&& self.ind(c).mother is None
                    &&& self.ind(c).partnership is None
                    &&& self.ind(c).gestation is None
                    &&& !self.ind(c).adult
                    &&& !self.ind(c).elder
                    &&& !self.ind(c).seeking
                } by {
                    if c < prev.n_ids() {
                        assert(self.individuals@[c] == prev.individuals@[c]);
                        assert(prev.alive(c));
                    } else {
                        assert(c == id as int);
                    }
                }
            }
            k += 1;
        }
    }
}

} // verus!
