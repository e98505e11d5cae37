use demog_abm::config::{rate_per_year, SimulationParameters};
use demog_abm::gestation::CONCEPTION_TIMESTEP;
use demog_abm::individual::{Demog, Individual, Sex};
use demog_abm::partner::SEEKING_TIMESTEP;
use demog_abm::sim::Simulation;

fn adult(age: u64, sex: Sex) -> Individual {
    Individual {
        demog: Demog { age, sex },
        mother: None,
        adult: true,
        elder: false,
        seeking: false,
        partnership: None,
        gestation: None,
    }
}

fn live_relationship_count(sim: &Simulation) -> usize {
    (0..sim.relationships.len()).filter(|&j| sim.get_relationship(j).is_some()).count()
}

fn gestation_count(sim: &Simulation) -> usize {
    (0..sim.individuals.len())
        .filter(|&i| sim.get_individual(i).map_or(false, |r| r.gestation.is_some()))
        .count()
}

fn form_partnership(sim: &mut Simulation, a: usize, b: usize) {
    for _ in 0..10 {
        sim.start_partner_seeking();
        sim.queue_partner_seekers();
        sim.match_partners();
        sim.resolve_matches();
        if sim.get_individual(a).unwrap().partnership.is_some()
            && sim.get_individual(b).unwrap().partnership.is_some()
        {
            break;
        }
    }
}

fn high_conception_params() -> SimulationParameters {
    SimulationParameters {
        death_age: 46800,                 // 60 years
        min_partner_seeking_age: 15600,   // 20 years
        max_partner_seeking_age: 39000,   // 50 years
        min_conception_age: 17160,        // 22 years
        max_conception_age: 31200,        // 40 years
        conception_rate: rate_per_year(10, 1),  // very high, conception comes fast
        gestation_duration: 78,           // a tenth of a year, for quick delivery
        ..Default::default()
    }
}

#[test]
fn test_death_stops_conception() {
    let mut sim = Simulation::new(high_conception_params());

    let male1 = sim.insert_individual(adult(19500, Sex::Male));
    let female1 = sim.insert_individual(adult(19500, Sex::Female));

    form_partnership(&mut sim, male1, female1);
    assert!(sim.get_individual(male1).unwrap().partnership.is_some(), "Male should have Partner component");
    assert!(sim.get_individual(female1).unwrap().partnership.is_some(), "Female should have Partner component");
    assert_eq!(live_relationship_count(&sim), 1, "Should have 1 relationship");

    // run conception rolls until one lands
    for _ in 0..50 {
        sim.conception(CONCEPTION_TIMESTEP);
        if gestation_count(&sim) > 0 {
            break;
        }
    }
    assert!(gestation_count(&sim) > 0, "Female should have conceived with high conception rate");

    // let the short gestation complete
    for _ in 0..20 {
        sim.update_gestation(CONCEPTION_TIMESTEP);
    }
    assert_eq!(gestation_count(&sim), 0, "Gestation should have completed");

    // the male dies; widowhood cleanup follows
    sim.remove_individual(male1);
    sim.detect_widows();

    assert!(
        sim.get_individual(female1).unwrap().partnership.is_none(),
        "Female should lose Partner component when partner dies"
    );
    assert_eq!(live_relationship_count(&sim), 0, "Relationship should be cleaned up after death");

    // without a partner no conception can land
    for _ in 0..10 {
        sim.conception(CONCEPTION_TIMESTEP);
    }
    assert_eq!(gestation_count(&sim), 0, "No new conception should occur without partner");
}

#[test]
fn test_breakup_stops_conception() {
    let params = SimulationParameters {
        breakup_rate: rate_per_year(100, 1),  // very high, breakup comes fast
        ..high_conception_params()
    };
    let mut sim = Simulation::new(params);

    let male1 = sim.insert_individual(adult(19500, Sex::Male));
    let female1 = sim.insert_individual(adult(19500, Sex::Female));

    form_partnership(&mut sim, male1, female1);
    assert!(sim.get_individual(male1).unwrap().partnership.is_some(), "Male should have Partner component");
    assert!(sim.get_individual(female1).unwrap().partnership.is_some(), "Female should have Partner component");
    assert_eq!(live_relationship_count(&sim), 1, "Should have 1 relationship");

    for _ in 0..50 {
        sim.conception(CONCEPTION_TIMESTEP);
        if gestation_count(&sim) > 0 {
            break;
        }
    }
    assert!(gestation_count(&sim) > 0, "Female should have conceived with high conception rate");

    for _ in 0..20 {
        sim.update_gestation(CONCEPTION_TIMESTEP);
    }
    assert_eq!(gestation_count(&sim), 0, "Gestation should have completed");

    // now roll breakups until the partnership dissolves
    for _ in 0..10 {
        sim.random_breakups(SEEKING_TIMESTEP);
        if sim.get_individual(male1).unwrap().partnership.is_none()
            || sim.get_individual(female1).unwrap().partnership.is_none()
        {
            break;
        }
    }

    assert!(
        sim.get_individual(male1).unwrap().partnership.is_none(),
        "Male should lose Partner component after breakup"
    );
    assert!(
        sim.get_individual(female1).unwrap().partnership.is_none(),
        "Female should lose Partner component after breakup"
    );
    assert_eq!(live_relationship_count(&sim), 0, "Relationship should be cleaned up after breakup");

    for _ in 0..10 {
        sim.conception(CONCEPTION_TIMESTEP);
    }
    assert_eq!(gestation_count(&sim), 0, "No new conception should occur without partners");
}
