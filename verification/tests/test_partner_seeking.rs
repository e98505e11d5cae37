use demog_abm::config::SimulationParameters;
use demog_abm::individual::{Demog, Individual, Sex, AGING_TIMESTEP};
use demog_abm::sim::Simulation;

fn base_params() -> SimulationParameters {
    SimulationParameters {
        death_age: 46800,                  // 60 years
        min_partner_seeking_age: 15600,    // 20 years
        max_partner_seeking_age: 39000,    // 50 years
        ..Default::default()
    }
}

fn individual(age: u64, sex: Sex, adult: bool, seeking: bool) -> Individual {
    Individual {
        demog: Demog { age, sex },
        mother: None,
        adult,
        elder: false,
        seeking,
        partnership: None,
        gestation: None,
    }
}

fn live_relationship_count(sim: &Simulation) -> usize {
    (0..sim.relationships.len()).filter(|&j| sim.get_relationship(j).is_some()).count()
}

fn partnered_count(sim: &Simulation) -> usize {
    (0..sim.individuals.len())
        .filter(|&i| sim.get_individual(i).map_or(false, |r| r.partnership.is_some()))
        .count()
}

fn seeking_count(sim: &Simulation) -> usize {
    (0..sim.individuals.len())
        .filter(|&i| sim.get_individual(i).map_or(false, |r| r.seeking))
        .count()
}

#[test]
fn did_start_partner_seeking() {
    let params = base_params();
    let mut sim = Simulation::new(params);

    // an individual half a year below the minimum partner-seeking age
    let start_age = params.min_partner_seeking_age - 390;
    let id = sim.insert_individual(individual(start_age, Sex::Male, false, false));

    let rec = sim.get_individual(id).expect("individual should exist");
    assert_eq!(rec.demog.age, start_age);
    assert!(!rec.adult);
    assert!(!rec.seeking);

    // age for one year, a month at a time
    for _tstep in 0..12 {
        sim.update_age(AGING_TIMESTEP);
        sim.start_partner_seeking();
    }

    let rec = sim.get_individual(id).expect("individual should still exist");
    assert_eq!(rec.demog.age, start_age + 780);
    assert!(rec.adult);
    assert!(rec.seeking);
}

#[test]
fn did_stop_partner_seeking() {
    let params = base_params();
    let mut sim = Simulation::new(params);

    // a seeking adult half a year below the maximum partner-seeking age
    let start_age = params.max_partner_seeking_age - 390;
    let id = sim.insert_individual(individual(start_age, Sex::Female, true, true));

    let rec = sim.get_individual(id).expect("individual should exist");
    assert_eq!(rec.demog.age, start_age);
    assert!(rec.adult);
    assert!(rec.seeking);
    assert!(!rec.elder);

    for _tstep in 0..12 {
        sim.update_age(AGING_TIMESTEP);
        sim.stop_elder_partner_seeking();
    }

    let rec = sim.get_individual(id).expect("individual should still exist");
    assert_eq!(rec.demog.age, start_age + 780);
    assert!(rec.adult);
    assert!(rec.elder);
    // seeking must have been withdrawn on becoming an elder
    assert!(!rec.seeking);
}

#[test]
fn test_partner_matching_with_uneven_ratios() {
    let params = base_params();
    let mut sim = Simulation::new(params);

    // two males and one female, all adults not yet seeking
    let male1 = sim.insert_individual(individual(19500, Sex::Male, true, false));
    let male2 = sim.insert_individual(individual(20280, Sex::Male, true, false));
    let female1 = sim.insert_individual(individual(18720, Sex::Female, true, false));

    assert!(!sim.get_individual(male1).unwrap().seeking);
    assert!(!sim.get_individual(male2).unwrap().seeking);
    assert!(!sim.get_individual(female1).unwrap().seeking);
    assert!(sim.get_individual(male1).unwrap().partnership.is_none());
    assert!(sim.get_individual(male2).unwrap().partnership.is_none());
    assert!(sim.get_individual(female1).unwrap().partnership.is_none());

    // run the full matching pipeline until the partnership resolves
    for _ in 0..10 {
        sim.start_partner_seeking();
        sim.queue_partner_seekers();
        sim.match_partners();
        sim.resolve_matches();
        if partnered_count(&sim) == 2 {
            break;
        }
    }

    assert_eq!(live_relationship_count(&sim), 1, "Should have exactly 1 relationship");
    assert_eq!(partnered_count(&sim), 2, "Should have exactly 2 entities with Partner component");
    assert_eq!(seeking_count(&sim), 1, "Should have exactly 1 entity still seeking partner");

    assert_eq!(sim.seekers.females.len(), 0, "Should have 0 females in queue");
    assert_eq!(sim.seekers.males.len(), 1, "Should have 1 male in queue");

    // the one relationship holds the female and one of the males
    let rel = (0..sim.relationships.len()).find_map(|j| sim.get_relationship(j)).unwrap();
    let pair = [rel.partners.e1, rel.partners.e2];
    assert!(pair.contains(&female1), "Female should be in the relationship");
    let matched_male = if pair[0] == female1 { pair[1] } else { pair[0] };
    assert!(matched_male == male1 || matched_male == male2, "One male should be matched");

    let unmatched_male = if matched_male == male1 { male2 } else { male1 };
    assert!(sim.get_individual(unmatched_male).unwrap().seeking, "Unmatched male should still be seeking");
    assert!(
        sim.get_individual(unmatched_male).unwrap().partnership.is_none(),
        "Unmatched male should not have Partner component"
    );
}

#[test]
fn test_simultaneous_partner_death() {
    let params = SimulationParameters {
        death_age: 46800,
        min_partner_seeking_age: 15600,
        max_partner_seeking_age: 39000,
        min_conception_age: 17160,
        max_conception_age: 31200,
        conception_rate: 0,
        gestation_duration: 600,
        breakup_rate: 0,
        spawn_individual_age: 14040,
    };
    let mut sim = Simulation::new(params);

    // a male and a female in partner-seeking range, already seeking
    let male1 = sim.insert_individual(individual(27300, Sex::Male, true, true));
    let female1 = sim.insert_individual(individual(26520, Sex::Female, true, true));

    for _ in 0..10 {
        sim.queue_partner_seekers();
        sim.match_partners();
        sim.resolve_matches();
        if sim.get_individual(male1).unwrap().partnership.is_some()
            && sim.get_individual(female1).unwrap().partnership.is_some()
        {
            break;
        }
    }

    assert!(sim.get_individual(male1).unwrap().partnership.is_some(), "Male should have Partner component");
    assert!(sim.get_individual(female1).unwrap().partnership.is_some(), "Female should have Partner component");
    assert_eq!(live_relationship_count(&sim), 1, "Should have 1 relationship");

    // both partners removed in the same tick
    sim.remove_individual(male1);
    sim.remove_individual(female1);

    // widow detection must handle the duplicate cleanup gracefully
    sim.detect_widows();

    assert_eq!(
        live_relationship_count(&sim),
        0,
        "Relationship should be cleaned up after simultaneous deaths"
    );
}
