//! The gestation pipeline: conception rolls and gestation countdowns.

use vstd::prelude::*;

use crate::events::BirthEvent;
use crate::hazard::{hazard_draw, hazard_probability, HAZARD_ONE};
use crate::individual::Individual;
use crate::sim::{lemma_contains_prefix, lemma_wf_record_update, Simulation};

verus! {

/// Timestep of the conception and gestation passes: one week.
pub const CONCEPTION_TIMESTEP: u64 = 15;

/// Whether the conception roll applies to individual `i`: a living,
/// partnered female inside the conception age window and not already
/// gestating (guarded by record presence, not a separate flag).
pub open spec fn conception_eligible(s: Simulation, i: int) -> bool {
    &&& s.alive(i)
    &&& s.ind(i).demog.sex == crate::individual::Sex::Female
    &&& s.ind(i).partnership is Some
    &&& s.ind(i).gestation is None
    &&& s.params.min_conception_age <= s.ind(i).demog.age < s.params.max_conception_age
}

/// Whether this gestation step delivers individual `i`'s newborn: the
/// remaining duration would drop below zero.
pub open spec fn due(s: Simulation, i: int, dt: u64) -> bool {
    s.alive(i) && s.ind(i).gestation is Some && s.ind(i).gestation->Some_0 < dt
}

/// How many records in the prefix `s` are due to give birth.
pub open spec fn count_due(s: Seq<Option<Individual>>, dt: u64) -> int
    decreases s.len(),
{
    if s.len() == 0 {
        0
    } else {
        count_due(s.drop_last(), dt) + if s.last() is Some && s.last()->Some_0.gestation is Some
            && s.last()->Some_0.gestation->Some_0 < dt {
            1int
        } else {
            0int
        }
    }
}

/// The number of due deliveries is never negative.
pub(crate) proof fn lemma_count_due_nonneg(s: Seq<Option<Individual>>, dt: u64)
    ensures
        count_due(s, dt) >= 0,
    decreases s.len(),
{
    if s.len() > 0 {
        lemma_count_due_nonneg(s.drop_last(), dt);
    }
}

impl Simulation {
    /// The conception pass: every eligible individual — living, female,
    /// partnered, inside `[min_conception_age, max_conception_age)` and
    /// not already gestating — conceives with probability
    /// `1 - e^(-dt * conception_rate)`, receiving a gestation record with
    /// the configured duration remaining. Nobody else is touched, and with
    /// a zero timestep or a zero rate nobody conceives.
    pub fn conception(&mut self, dt: u64)
        requires
            old(self).wf(),
        ensures
            final(self).wf(),
            final(self).n_ids() == old(self).n_ids(),
            forall|i: int|
                conception_eligible(*old(self), i) ==> final(self).individuals@[i] == old(self).individuals@[i] || final(self).individuals@[i] == Some(
                    Individual {
                        gestation: Some(old(self).params.gestation_duration),
                        ..old(self).ind(i)
                    },
                ),
            forall|i: int|
                0 <= i < old(self).n_ids() && !conception_eligible(*old(self), i) ==> final(self).individuals@[i] == old(self).individuals@[i],
            dt == 0 || old(self).params.conception_rate == 0 ==> final(self).individuals@ == old(self).individuals@,
            // an overwhelming hazard makes conception certain for everyone
            // eligible
            dt as int * old(self).params.conception_rate as int >= crate::hazard::EXPONENT_CAP
                ==> forall|i: int|
                conception_eligible(*old(self), i) ==> final(self).individuals@[i] == Some(
                    Individual {
                        gestation: Some(old(self).params.gestation_duration),
                        ..old(self).ind(i)
                    },
                ),
            final(self).relationships == old(self).relationships,
            final(self).seekers.females == old(self).seekers.females,
            final(self).seekers.males == old(self).seekers.males,
            final(self).pending_matches == old(self).pending_matches,
            final(self).pending_widows == old(self).pending_widows,
            final(self).log == old(self).log,
            final(self).params == old(self).params,
            final(self).time == old(self).time,
    {
        let prob = hazard_probability(dt, self.params.conception_rate);
        let n = self.individuals.len();
        let mut id: usize = 0;
        while id < n
            invariant
                old(self).wf(),
                self.wf(),
                id <= n,
                n == old(self).individuals@.len(),
                self.individuals@.len() == n,
                prob <= HAZARD_ONE,
                prob == 0 <==> (dt == 0 || old(self).params.conception_rate == 0),
                forall|i: int| id <= i < n ==> self.individuals@[i] == old(self).individuals@[i],
                forall|i: int|
                    0 <= i < id && conception_eligible(*old(self), i) ==> self.individuals@[i]
                        == old(self).individuals@[i] || self.individuals@[i] == Some(
                        Individual {
                            gestation: Some(old(self).params.gestation_duration),
                            ..old(self).ind(i)
                        },
                    ),
                forall|i: int|
                    0 <= i < id && !conception_eligible(*old(self), i) ==> self.individuals@[i]
                        == old(self).individuals@[i],
                prob == 0 ==> self.individuals@ == old(self).individuals@,
                dt as int * old(self).params.conception_rate as int
                    >= crate::hazard::EXPONENT_CAP ==> prob == HAZARD_ONE,
                prob == HAZARD_ONE ==> forall|i: int|
                    0 <= i < id && conception_eligible(*old(self), i) ==> self.individuals@[i]
                        == Some(
                        Individual {
                            gestation: Some(old(self).params.gestation_duration),
                            ..old(self).ind(i)
                        },
                    ),
                self.relationships == old(self).relationships,
                self.seekers.females == old(self).seekers.females,
                self.seekers.males == old(self).seekers.males,
                self.pending_matches == old(self).pending_matches,
                self.pending_widows == old(self).pending_widows,
                self.log == old(self).log,
                self.params == old(self).params,
                self.time == old(self).time,
            decreases n - id,
        {
            let slot = self.individuals[id];
            if let Some(rec) = slot {
                let eligible = rec.demog.sex == crate::individual::Sex::Female
                    && rec.partnership.is_some() && rec.gestation.is_none()
                    && rec.demog.age >= self.params.min_conception_age && rec.demog.age
                    < self.params.max_conception_age;
                if eligible {
                    if hazard_draw(prob) {
                        let ghost before = *self;
                        let newrec = Individual {
                            gestation: Some(self.params.gestation_duration),
                            ..rec
                        };
                        self.individuals.set(id, Some(newrec));
                        proof {
                            assert(before.alive(id as int));
                            assert(before.ind_wf(id as int));
                            lemma_wf_record_update(before, *self, id as int, newrec);
                        }
                    }
                }
            }
            id += 1;
        }
    }

    /// The gestation pass: every gestating individual's remaining duration
    /// counts down by `dt`; when it would drop below zero the record is
    /// removed — exactly once — and a newborn of age zero is spawned with
    /// its mother reference set to the delivering individual, emitting a
    /// `Birth` event. Newborns take the next free identifiers in mother
    /// order.
    #[verifier::rlimit(100)]
    pub fn update_gestation(&mut self, dt: u64)
        requires
            old(self).wf(),
        ensures
            final(self).wf(),
            final(self).n_ids() == old(self).n_ids() + count_due(old(self).individuals@, dt),
            // the countdown, exact per record
            forall|i: int|
                old(self).alive(i) && old(self).ind(i).gestation is Some && !due(*old(self), i, dt)
                    ==> final(self).individuals@[i] == Some(
                    Individual {
                        gestation: Some((old(self).ind(i).gestation->Some_0 - dt) as u64),
                        ..old(self).ind(i)
                    },
                ),
            forall|i: int|
                #![trigger old(self).ind(i)]
                due(*old(self), i, dt) ==> {
                    let c = old(self).n_ids() + count_due(old(self).individuals@.take(i), dt);
                    &&& final(self).individuals@[i] == Some(
                        Individual { gestation: None, ..old(self).ind(i) },
                    )
                    &&& final(self).alive(c)
                    &&& final(self).ind(c).demog.age == 0
                    &&& final(self).ind(c).mother == Some(i as usize)
                    &&& final(self).ind(c).partnership is None
                    &&& final(self).ind(c).gestation is None
                    &&& !final(self).ind(c).adult && !final(self).ind(c).elder && !final(self).ind(c).seeking
                    &&& final(self).log.births@.contains(
                        BirthEvent {
                            child_entity: c as usize,
                            mother_entity: Some(i as usize),
                            time: old(self).time,
                        },
                    )
                },
            forall|i: int|
                #![trigger old(self).individuals@[i]]
                0 <= i < old(self).n_ids() && !(old(self).alive(i) && old(self).ind(i).gestation is Some) ==> final(self).individuals@[i] == old(self).individuals@[i],
            final(self).relationships@ == old(self).relationships@,
            final(self).seekers.females@ == old(self).seekers.females@,
            final(self).seekers.males@ == old(self).seekers.males@,
            final(self).pending_matches@ == old(self).pending_matches@,
            final(self).pending_widows@ == old(self).pending_widows@,
            old(self).log.births@.is_prefix_of(final(self).log.births@),
            final(self).log.births@.len() == old(self).log.births@.len() + count_due(
                old(self).individuals@,
                dt,
            ),
            final(self).log.deaths == old(self).log.deaths,
            final(self).log.partnerships == old(self).log.partnerships,
            final(self).log.breakups == old(self).log.breakups,
            final(self).log.widowings == old(self).log.widowings,
            final(self).params == old(self).params,
            final(self).time == old(self).time,
    {
        let n = self.individuals.len();
        let mut id: usize = 0;
        while id < n
            invariant
                old(self).wf(),
                self.wf(),
                id <= n,
                n == old(self).individuals@.len(),
                self.individuals@.len() == n + count_due(
                    old(self).individuals@.take(id as int),
                    dt,
                ),
                forall|i: int| id <= i < n ==> self.individuals@[i] == old(self).individuals@[i],
                forall|i: int|
                    0 <= i < id && old(self).alive(i) && old(self).ind(i).gestation is Some && !due(
                        *old(self),
                        i,
                        dt,
                    ) ==> self.individuals@[i] == Some(
                        Individual {
                            gestation: Some((old(self).ind(i).gestation->Some_0 - dt) as u64),
                            ..old(self).ind(i)
                        },
                    ),
                forall|i: int|
                    #![trigger old(self).ind(i)]
                    0 <= i < id && due(*old(self), i, dt) ==> {
                        let c = old(self).n_ids() + count_due(old(self).individuals@.take(i), dt);
                        &&& self.individuals@[i] == Some(
                            Individual { gestation: None, ..old(self).ind(i) },
                        )
                        &&& self.alive(c)
                        &&& self.ind(c).demog.age == 0
                        &&& self.ind(c).mother == Some(i as usize)
                        &&& self.ind(c).partnership is None
                        &&& self.ind(c).gestation is None
                        &&& !self.ind(c).adult && !self.ind(c).elder && !self.ind(c).seeking
                        &&& self.log.births@.contains(
                            BirthEvent {
                                child_entity: c as usize,
                                mother_entity: Some(i as usize),
                                time: old(self).time,
                            },
                        )
                    },
                forall|i: int|
                    #![trigger old(self).individuals@[i]]
                    0 <= i < id && !(old(self).alive(i) && old(self).ind(i).gestation is Some)
                        ==> self.individuals@[i] == old(self).individuals@[i],
                self.relationships@ == old(self).relationships@,
                self.seekers.females@ == old(self).seekers.females@,
                self.seekers.males@ == old(self).seekers.males@,
                self.pending_matches@ == old(self).pending_matches@,
                self.pending_widows@ == old(self).pending_widows@,
                old(self).log.births@.is_prefix_of(self.log.births@),
                self.log.births@.len() == old(self).log.births@.len() + count_due(
                    old(self).individuals@.take(id as int),
                    dt,
                ),
                self.log.deaths == old(self).log.deaths,
                self.log.partnerships == old(self).log.partnerships,
                self.log.breakups == old(self).log.breakups,
                self.log.widowings == old(self).log.widowings,
                self.params == old(self).params,
                self.time == old(self).time,
            decreases n - id,
        {
            let ghost prefix = old(self).individuals@.take(id as int);
            let ghost at_start = *self;
            let slot = self.individuals[id];
            if let Some(rec) = slot {
                if let Some(g) = rec.gestation {
                    if g < dt {
                        // delivery: drop the record once, then spawn the
                        // newborn linked to its mother
                        let ghost before = *self;
                        let newrec = Individual { gestation: None, ..rec };
                        self.individuals.set(id, Some(newrec));
                        proof {
                            assert(before.alive(id as int));
                            assert(before.ind_wf(id as int));
                            lemma_wf_record_update(before, *self, id as int, newrec);
                        }
                        let ghost mid2 = *self;
                        let child = self.spawn_individual(0, Some(id));
                        proof {
                            assert(child as int == old(self).n_ids() + count_due(prefix, dt));
                            assert forall|x: int|
                                0 <= x < mid2.individuals@.len() implies self.individuals@[x]
                                == mid2.individuals@[x] by {}
                            assert(mid2.log.births@ == at_start.log.births@);
                            crate::sim::lemma_prefix_push(
                                mid2.log.births@,
                                BirthEvent {
                                    child_entity: child,
                                    mother_entity: Some(id),
                                    time: old(self).time,
                                },
                            );
                            assert(self.log.births@.last() == (BirthEvent {
                                child_entity: child,
                                mother_entity: Some(id),
                                time: old(self).time,
                            }));
                            assert(self.log.births@.contains(BirthEvent {
                                child_entity: child,
                                mother_entity: Some(id),
                                time: old(self).time,
                            }));
                        }
                    } else {
                        let ghost before = *self;
                        let newrec = Individual { gestation: Some(g - dt), ..rec };
                        self.individuals.set(id, Some(newrec));
                        proof {
                            assert(before.alive(id as int));
                            assert(before.ind_wf(id as int));
                            lemma_wf_record_update(before, *self, id as int, newrec);
                        }
                    }
                }
            }
            proof {
                assert(old(self).individuals@.take(id + 1 as int).drop_last() =~= prefix);
                assert(old(self).individuals@.take(id + 1 as int).last() == old(self).individuals@[id as int]);
                assert forall|i: int|
                    #![trigger old(self).individuals@[i]]
                    0 <= i < id + 1 && !(old(self).alive(i) && old(
                        self,
                    ).ind(i).gestation is Some) implies self.individuals@[i] == old(
                    self,
                ).individuals@[i] by {
                    if i < id {
                        assert(!(old(self).alive(i) && old(self).ind(i).gestation is Some));
                        assert(at_start.individuals@[i] == old(self).individuals@[i]);
                    } else {
                        assert(i == id);
                        assert(at_start.individuals@[i] == old(self).individuals@[i]);
                    }
                    assert(self.individuals@[i] == at_start.individuals@[i]);
                }
                assert(at_start.log.births@.is_prefix_of(self.log.births@)) by {
                    if self.log.births@ =~= at_start.log.births@ {
                        assert(at_start.log.births@ =~= self.log.births@.subrange(
                            0,
                            at_start.log.births@.len() as int,
                        ));
                    }
                }
                crate::sim::lemma_prefix_trans(
                    old(self).log.births@,
                    at_start.log.births@,
                    self.log.births@,
                );
                assert forall|i: int|
                    #![trigger old(self).ind(i)]
                    0 <= i < id + 1 && due(*old(self), i, dt) implies {
                    let c = old(self).n_ids() + count_due(old(self).individuals@.take(i), dt);
                    &&& self.individuals@[i] == Some(
                        Individual { gestation: None, ..old(self).ind(i) },
                    )
                    &&& self.alive(c)
                    &&& self.ind(c).demog.age == 0
                    &&& self.ind(c).mother == Some(i as usize)
                    &&& self.ind(c).partnership is None
                    &&& self.ind(c).gestation is None
                    &&& !self.ind(c).adult && !self.ind(c).elder && !self.ind(c).seeking
                    &&& self.log.births@.contains(
                        BirthEvent {
                            child_entity: c as usize,
                            mother_entity: Some(i as usize),
                            time: old(self).time,
                        },
                    )
                } by {
                    if i < id {
                        let c = old(self).n_ids() + count_due(old(self).individuals@.take(i), dt);
                        lemma_contains_prefix(
                            at_start.log.births@,
                            self.log.births@,
                            BirthEvent {
                                child_entity: c as usize,
                                mother_entity: Some(i as usize),
                                time: old(self).time,
                            },
                        );
                    }
                }
            }
            id += 1;
        }
        proof {
            assert(old(self).individuals@.take(n as int) =~= old(self).individuals@);
        }
    }
}

} // verus!