use demog_abm::config::{rate_per_year, SimulationParameters};
use demog_abm::gestation::CONCEPTION_TIMESTEP;
use demog_abm::individual::{Demog, Individual, Sex};
use demog_abm::sim::Simulation;

#[test]
fn test_gestation_completes_after_correct_timesteps() {
    let params = SimulationParameters {
        death_age: 46800,                // 60 years
        min_partner_seeking_age: 15600,  // 20 years
        max_partner_seeking_age: 39000,  // 50 years
        min_conception_age: 17160,       // 22 years
        max_conception_age: 31200,       // 40 years
        conception_rate: rate_per_year(1, 1),
        gestation_duration: 780,         // one year
        ..Default::default()
    };
    let mut sim = Simulation::new(params);

    // a pregnant adult female
    let mother_entity = sim.insert_individual(Individual {
        demog: Demog { age: 19500, sex: Sex::Female },
        mother: None,
        adult: true,
        elder: false,
        seeking: false,
        partnership: None,
        gestation: Some(params.gestation_duration),
    });

    assert!(
        sim.get_individual(mother_entity).unwrap().gestation.is_some(),
        "Mother should have RemainingGestation"
    );
    let initial_count =
        (0..sim.individuals.len()).filter(|&i| sim.get_individual(i).is_some()).count();
    assert_eq!(initial_count, 1, "Should have 1 individual initially");

    // remaining drops below zero after ceil(duration / timestep) + 1 steps
    let expected_timesteps = (params.gestation_duration + CONCEPTION_TIMESTEP - 1) / CONCEPTION_TIMESTEP;
    let expected_timesteps = expected_timesteps as i32;

    let mut timesteps_run = 0;
    for i in 0..100 {
        timesteps_run = i + 1;
        sim.update_gestation(CONCEPTION_TIMESTEP);
        if sim.get_individual(mother_entity).unwrap().gestation.is_none() {
            break;
        }
    }

    println!("Expected timesteps: {}, Actual timesteps: {}", expected_timesteps, timesteps_run);
    assert!(timesteps_run <= expected_timesteps + 1, "Birth should occur within expected timestep range");
    assert!(timesteps_run >= expected_timesteps - 1, "Birth should not occur too early");

    assert!(
        sim.get_individual(mother_entity).unwrap().gestation.is_none(),
        "Mother should no longer have RemainingGestation"
    );

    let final_count =
        (0..sim.individuals.len()).filter(|&i| sim.get_individual(i).is_some()).count();
    assert_eq!(final_count, 2, "Should have 2 individuals after birth (mother + newborn)");

    // find the newborn
    let mut newborn_entity = None;
    let mut newborn_age = None;
    let mut newborn_mother = None;
    for i in 0..sim.individuals.len() {
        if i != mother_entity {
            if let Some(rec) = sim.get_individual(i) {
                newborn_entity = Some(i);
                newborn_age = Some(rec.demog.age);
                newborn_mother = rec.mother;
            }
        }
    }

    assert!(newborn_entity.is_some(), "Should have found newborn entity");
    assert_eq!(newborn_age.expect("Newborn should have age"), 0, "Newborn should have zero age");
    let newborn_mother_id = newborn_mother.expect("Newborn should have Mother component");
    assert_eq!(newborn_mother_id, mother_entity, "Newborn's Mother component should reference mother entity");
    assert!(
        sim.get_individual(newborn_entity.unwrap()).is_some(),
        "Newborn should have Individual component"
    );
}
