use hearthstone_simulator::simulation::simulation;
use hearthstone_simulator::world::RULEBOOK_REVISION;

#[test]
fn a_fresh_simulation_keeps_its_invariants() {
    let simulation = simulation();
    assert_eq!(simulation.assert_invariants(), Ok(()));
}

#[test]
fn a_fresh_simulation_plays_under_the_standard_ruleset() {
    let simulation = simulation();
    let ruleset = simulation.world.ruleset;
    assert_eq!(
        (ruleset.id, ruleset.resolution_budget, ruleset.maximum_mana, ruleset.hand_limit, ruleset.board_limit),
        (1, 10000, 10, 10, 7)
    );
    assert_eq!(ruleset.rulebook_revision, RULEBOOK_REVISION);
}
