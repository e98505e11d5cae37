use demog_abm::config::{rate_per_year, years, ConfigError, SimulationParameters, TIME_UNITS_PER_YEAR};
use demog_abm::gestation::CONCEPTION_TIMESTEP;
use demog_abm::hazard::{exp_neg_q32, hazard_probability, EXPONENT_CAP, HAZARD_ONE};
use demog_abm::individual::{check_simulation_end, Demog, Individual, Sex, AGING_TIMESTEP};
use demog_abm::partner::SEEKING_TIMESTEP;
use demog_abm::sim::Simulation;

fn adult(age: u64, sex: Sex) -> Individual {
    Individual {
        demog: Demog { age, sex },
        mother: None,
        adult: true,
        elder: false,
        seeking: false,
        partnership: None,
        gestation: None,
    }
}

fn live_relationship_count(sim: &Simulation) -> usize {
    (0..sim.relationships.len()).filter(|&j| sim.get_relationship(j).is_some()).count()
}

#[test]
fn spawn_then_lookup_roundtrip() {
    let mut sim = Simulation::new(SimulationParameters::default());
    let mother = sim.spawn_individual(19500, None);
    let child = sim.spawn_individual(0, Some(mother));

    let rec = sim.get_individual(child).expect("spawned child must be found");
    assert_eq!(rec.demog.age, 0);
    assert_eq!(rec.mother, Some(mother));
    assert!(rec.partnership.is_none());
    assert!(rec.gestation.is_none());
    assert!(!rec.adult && !rec.elder && !rec.seeking);

    // both spawns were logged as births, in order
    assert_eq!(sim.log.births.len(), 2);
    assert_eq!(sim.log.births[1].child_entity, child);
    assert_eq!(sim.log.births[1].mother_entity, Some(mother));
}

#[test]
fn hazard_probability_edge_values() {
    let rate = rate_per_year(1, 2);
    assert_eq!(hazard_probability(0, rate), 0);
    assert_eq!(hazard_probability(CONCEPTION_TIMESTEP, 0), 0);
    assert!(hazard_probability(CONCEPTION_TIMESTEP, rate) > 0);
    assert!(hazard_probability(CONCEPTION_TIMESTEP, rate) < HAZARD_ONE);
    // an overwhelming hazard saturates to certainty
    assert_eq!(hazard_probability(u64::MAX, u64::MAX), HAZARD_ONE);
    assert_eq!(hazard_probability(1, EXPONENT_CAP), HAZARD_ONE);
    assert_eq!(exp_neg_q32(0), HAZARD_ONE);
}

#[test]
fn exponential_approximation_is_accurate() {
    let samples: [u64; 7] = [
        1 << 20,
        1 << 28,
        1 << 31,
        1 << 32,
        3 << 32,
        10 << 32,
        30 << 32,
    ];
    for &x in samples.iter() {
        let got = exp_neg_q32(x) as f64 / HAZARD_ONE as f64;
        let exact = (-(x as f64) / HAZARD_ONE as f64).exp();
        assert!(
            (got - exact).abs() < 1e-4,
            "exp(-{}) approximation off: got {}, exact {}",
            x as f64 / HAZARD_ONE as f64,
            got,
            exact
        );
    }
}

#[test]
fn conception_probability_is_cadence_invariant() {
    // one round at the full timestep carries the same success probability
    // as two rounds at half the timestep: p == 1 - (1 - p_half)^2, up to
    // fixed-point rounding
    let rates = [rate_per_year(1, 2), rate_per_year(10, 1), rate_per_year(1, 10)];
    let dts: [u64; 3] = [CONCEPTION_TIMESTEP, AGING_TIMESTEP, 390];
    for &rate in rates.iter() {
        for &dt in dts.iter() {
            let half = dt / 2;
            let p_full = hazard_probability(2 * half, rate) as f64 / HAZARD_ONE as f64;
            let p_half = hazard_probability(half, rate) as f64 / HAZARD_ONE as f64;
            let combined = 1.0 - (1.0 - p_half) * (1.0 - p_half);
            assert!(
                (p_full - combined).abs() < 1e-3,
                "cadence invariance broken: full {}, combined {}",
                p_full,
                combined
            );
            // and both agree with the exponential-hazard form
            let exact = 1.0 - (-((2 * half) as f64 * rate as f64 / HAZARD_ONE as f64)).exp();
            assert!((p_full - exact).abs() < 1e-3);
        }
    }
}

#[test]
fn two_eligible_singles_form_one_partnership() {
    let mut sim = Simulation::new(SimulationParameters {
        death_age: 46800,
        min_partner_seeking_age: 15600,
        max_partner_seeking_age: 39000,
        ..Default::default()
    });
    let male = sim.insert_individual(adult(19500, Sex::Male));     // 25 years
    let female = sim.insert_individual(adult(18720, Sex::Female)); // 24 years

    sim.start_partner_seeking();
    sim.queue_partner_seekers();
    sim.match_partners();
    sim.resolve_matches();

    assert_eq!(live_relationship_count(&sim), 1);
    assert!(sim.seekers.females.is_empty());
    assert!(sim.seekers.males.is_empty());
    assert!(sim.get_individual(male).unwrap().partnership.is_some());
    assert!(sim.get_individual(female).unwrap().partnership.is_some());

    assert_eq!(sim.log.partnerships.len(), 1);
    let ev = sim.log.partnerships[0];
    assert!(
        (ev.individual1 == male && ev.individual2 == female)
            || (ev.individual1 == female && ev.individual2 == male)
    );
}

#[test]
fn three_males_one_female_match_fifo() {
    let mut sim = Simulation::new(SimulationParameters {
        death_age: 46800,
        min_partner_seeking_age: 15600,
        max_partner_seeking_age: 39000,
        ..Default::default()
    });
    let m1 = sim.insert_individual(adult(19500, Sex::Male));
    let m2 = sim.insert_individual(adult(20280, Sex::Male));
    let m3 = sim.insert_individual(adult(21060, Sex::Male));
    let f = sim.insert_individual(adult(18720, Sex::Female));

    sim.start_partner_seeking();
    sim.queue_partner_seekers();
    sim.match_partners();
    sim.resolve_matches();

    // exactly one partnership, with the first-queued male
    assert_eq!(live_relationship_count(&sim), 1);
    let rel = (0..sim.relationships.len()).find_map(|j| sim.get_relationship(j)).unwrap();
    let pair = [rel.partners.e1, rel.partners.e2];
    assert!(pair.contains(&f));
    assert!(pair.contains(&m1), "matching must be first-in-first-out");

    // the two later males remain queued, in arrival order
    assert_eq!(sim.seekers.females.len(), 0);
    assert_eq!(sim.seekers.males.len(), 2);
    assert_eq!(sim.seekers.males[0], m2);
    assert_eq!(sim.seekers.males[1], m3);
    assert!(sim.get_individual(m2).unwrap().partnership.is_none());
    assert!(sim.get_individual(m3).unwrap().partnership.is_none());
    assert!(sim.get_individual(m2).unwrap().seeking);
    assert!(sim.get_individual(m3).unwrap().seeking);
}

#[test]
fn partnered_female_conceives_and_delivers() {
    let mut sim = Simulation::new(SimulationParameters {
        death_age: 46800,
        min_partner_seeking_age: 15600,
        max_partner_seeking_age: 39000,
        min_conception_age: 17160,
        max_conception_age: 31200,
        conception_rate: rate_per_year(10, 1),
        gestation_duration: 78,  // a tenth of a year
        ..Default::default()
    });
    let male = sim.insert_individual(adult(24180, Sex::Male));
    let female = sim.insert_individual(adult(23400, Sex::Female)); // 30 years

    sim.start_partner_seeking();
    sim.queue_partner_seekers();
    sim.match_partners();
    sim.resolve_matches();
    assert!(sim.get_individual(female).unwrap().partnership.is_some());
    assert!(sim.get_individual(male).unwrap().partnership.is_some());

    // with this hazard, conception lands within a bounded number of
    // conception-cadence ticks
    let mut conceived = false;
    for _ in 0..400 {
        sim.conception(CONCEPTION_TIMESTEP);
        if sim.get_individual(female).unwrap().gestation.is_some() {
            conceived = true;
            break;
        }
    }
    assert!(conceived, "conception should land within the bounded window");

    let before = sim.individuals.len();
    for _ in 0..20 {
        sim.update_gestation(CONCEPTION_TIMESTEP);
        if sim.get_individual(female).unwrap().gestation.is_none() {
            break;
        }
    }
    assert!(sim.get_individual(female).unwrap().gestation.is_none());
    assert_eq!(sim.individuals.len(), before + 1);

    let newborn = sim.individuals.len() - 1;
    let rec = sim.get_individual(newborn).expect("newborn must exist");
    assert_eq!(rec.demog.age, 0);
    assert_eq!(rec.mother, Some(female));
}

#[test]
fn death_age_is_enforced_each_aging_pass() {
    let mut sim = Simulation::new(SimulationParameters {
        death_age: 46800,
        ..Default::default()
    });
    let elder = sim.insert_individual(adult(46790, Sex::Male));
    let young = sim.insert_individual(adult(15600, Sex::Female));

    sim.update_age(AGING_TIMESTEP);

    // the crossing individual is gone, with a death event at its final age
    assert!(sim.get_individual(elder).is_none());
    assert_eq!(sim.log.deaths.len(), 1);
    assert_eq!(sim.log.deaths[0].entity, elder);
    assert_eq!(sim.log.deaths[0].age, 46790 + AGING_TIMESTEP);

    // survivors aged, and nobody above the death age remains
    let rec = sim.get_individual(young).unwrap();
    assert_eq!(rec.demog.age, 15600 + AGING_TIMESTEP);
    for i in 0..sim.individuals.len() {
        if let Some(r) = sim.get_individual(i) {
            assert!(r.demog.age <= 46800);
        }
    }
}

#[test]
fn initial_population_ages_are_in_range() {
    let mut sim = Simulation::new(SimulationParameters::default());
    sim.initial_population(50);
    assert_eq!(sim.individuals.len(), 50);
    assert_eq!(sim.log.births.len(), 50);
    for i in 0..50 {
        let rec = sim.get_individual(i).expect("seeded individual must exist");
        assert!(rec.demog.age >= 14040, "seeded age below 18 years");
        assert!(rec.demog.age < 23400, "seeded age at or above 30 years");
        assert!(rec.mother.is_none());
    }
}

#[test]
fn configuration_is_validated_before_running() {
    let good = SimulationParameters::default();
    assert!(good.validate().is_ok());

    let bad = SimulationParameters { gestation_duration: 0, ..Default::default() };
    assert_eq!(bad.validate(), Err(ConfigError::NonPositiveDuration));
}

#[test]
fn default_parameters_match_documented_values() {
    let p = SimulationParameters::default();
    assert_eq!(p.death_age, 30 * TIME_UNITS_PER_YEAR);
    assert_eq!(p.min_partner_seeking_age, 20 * TIME_UNITS_PER_YEAR);
    assert_eq!(p.max_partner_seeking_age, 50 * TIME_UNITS_PER_YEAR);
    assert_eq!(p.spawn_individual_age, 18 * TIME_UNITS_PER_YEAR);
    assert_eq!(p.min_conception_age, 25 * TIME_UNITS_PER_YEAR);
    assert_eq!(p.max_conception_age, 35 * TIME_UNITS_PER_YEAR);
    assert_eq!(p.gestation_duration, 600);
    assert_eq!(p.conception_rate, rate_per_year(1, 2));
    assert_eq!(p.breakup_rate, rate_per_year(1, 10));
    assert_eq!(years(3), 3 * TIME_UNITS_PER_YEAR);
}

#[test]
fn stop_query_fires_only_on_spent_budget() {
    assert!(!check_simulation_end(1000, None));
    assert!(!check_simulation_end(999, Some(1000)));
    assert!(check_simulation_end(1000, Some(1000)));
    assert!(check_simulation_end(1001, Some(1000)));
}

#[test]
fn widow_is_readmitted_to_seeking_and_rematches() {
    let mut sim = Simulation::new(SimulationParameters {
        death_age: 46800,
        min_partner_seeking_age: 15600,
        max_partner_seeking_age: 39000,
        ..Default::default()
    });
    let m1 = sim.insert_individual(adult(19500, Sex::Male));
    let f = sim.insert_individual(adult(18720, Sex::Female));

    sim.start_partner_seeking();
    sim.queue_partner_seekers();
    sim.match_partners();
    sim.resolve_matches();
    assert!(sim.get_individual(f).unwrap().partnership.is_some());

    // the first partner dies; cleanup widows the survivor
    sim.remove_individual(m1);
    sim.detect_widows();
    assert!(sim.get_individual(f).unwrap().partnership.is_none());
    assert_eq!(sim.log.widowings.len(), 1);
    assert_eq!(sim.log.widowings[0].widow_entity, f);
    assert_eq!(sim.log.widowings[0].deceased_entity, m1);

    // on the next eligibility pass the widow seeks and rematches
    let m2 = sim.insert_individual(adult(20280, Sex::Male));
    sim.start_partner_seeking();
    sim.queue_partner_seekers();
    sim.match_partners();
    sim.resolve_matches();
    let rec = sim.get_individual(f).unwrap();
    assert!(rec.partnership.is_some());
    let rel = sim.get_relationship(rec.partnership.unwrap()).unwrap();
    assert!(rel.partners.e1 == m2 || rel.partners.e2 == m2);
}

#[test]
fn elder_eviction_purges_the_queue() {
    let mut sim = Simulation::new(SimulationParameters {
        death_age: 46800,
        min_partner_seeking_age: 15600,
        max_partner_seeking_age: 39000,
        ..Default::default()
    });
    // a lone seeker left unmatched, queued
    let m = sim.insert_individual(adult(38900, Sex::Male));
    sim.start_partner_seeking();
    sim.queue_partner_seekers();
    assert_eq!(sim.seekers.males.len(), 1);

    // three months of aging carry him past the maximum seeking age
    sim.update_age(AGING_TIMESTEP);
    sim.update_age(AGING_TIMESTEP);
    sim.update_age(AGING_TIMESTEP);
    assert!(sim.get_individual(m).unwrap().elder);

    // eviction removes him from the queue and from seeking at once
    sim.stop_elder_partner_seeking();
    assert_eq!(sim.seekers.males.len(), 0);
    assert!(!sim.get_individual(m).unwrap().seeking);
}

#[test]
fn overwhelming_hazards_act_with_certainty() {
    let mut sim = Simulation::new(SimulationParameters {
        death_age: 46800,
        min_partner_seeking_age: 15600,
        max_partner_seeking_age: 39000,
        min_conception_age: 17160,
        max_conception_age: 31200,
        conception_rate: EXPONENT_CAP,
        gestation_duration: 78,
        breakup_rate: EXPONENT_CAP,
        ..Default::default()
    });
    let male = sim.insert_individual(adult(19500, Sex::Male));
    let female = sim.insert_individual(adult(19500, Sex::Female));
    sim.start_partner_seeking();
    sim.queue_partner_seekers();
    sim.match_partners();
    sim.resolve_matches();
    assert!(sim.get_individual(female).unwrap().partnership.is_some());

    // conception is certain in a single round at this hazard
    sim.conception(CONCEPTION_TIMESTEP);
    assert!(sim.get_individual(female).unwrap().gestation.is_some());

    // and so is the breakup
    sim.random_breakups(SEEKING_TIMESTEP);
    assert!(sim.get_individual(male).unwrap().partnership.is_none());
    assert!(sim.get_individual(female).unwrap().partnership.is_none());
    assert_eq!(live_relationship_count(&sim), 0);
    assert_eq!(sim.log.breakups.len(), 1);
}

#[test]
fn off_cadence_tick_moves_only_the_clock() {
    let mut sim = Simulation::new(SimulationParameters::default());
    sim.insert_individual(adult(19500, Sex::Male));
    sim.insert_individual(adult(18720, Sex::Female));
    let snapshot: Vec<_> = (0..sim.individuals.len()).map(|i| sim.get_individual(i)).collect();

    // the first base step lands on no cadence: nothing but time moves
    sim.run_tick();
    assert_eq!(sim.time, 5);
    for (i, before) in snapshot.iter().enumerate() {
        assert_eq!(sim.get_individual(i), *before);
    }
    assert_eq!(sim.relationships.len(), 0);
    assert_eq!(sim.log.births.len(), 0);
    assert_eq!(sim.log.deaths.len(), 0);
    assert_eq!(sim.log.partnerships.len(), 0);
    assert_eq!(sim.log.breakups.len(), 0);
    assert_eq!(sim.log.widowings.len(), 0);
}

#[test]
fn ticks_keep_partnerships_consistent() {
    let mut sim = Simulation::new(SimulationParameters::default());
    sim.initial_population(30);

    // a simulated year of ticks
    for _ in 0..156 {
        sim.run_tick();

        // every live partnership has two distinct living members, each
        // referencing it back
        for j in 0..sim.relationships.len() {
            if let Some(rel) = sim.get_relationship(j) {
                let a = rel.partners.e1;
                let b = rel.partners.e2;
                assert_ne!(a, b);
                let ra = sim.get_individual(a).expect("partner must be alive at tick boundary");
                let rb = sim.get_individual(b).expect("partner must be alive at tick boundary");
                assert_eq!(ra.partnership, Some(j));
                assert_eq!(rb.partnership, Some(j));
            }
        }
    }
    assert_eq!(sim.time, 156 * 5);
}
