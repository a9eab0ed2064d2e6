use hearthstone_simulator::rng::{choose_game_entity, DeterministicRng, RngSnapshot, RNG_ALGORITHM_VERSION};
use hearthstone_simulator::trace::TraceEntry;
use hearthstone_simulator::types::GameEntityId;

fn select(seed: u64) -> (GameEntityId, RngSnapshot) {
    let mut rng = DeterministicRng::new(seed);
    let mut trace = Vec::new();
    let selected =
        choose_game_entity(&mut rng, &mut trace, vec![GameEntityId(9), GameEntityId(2), GameEntityId(5)]).unwrap();
    (selected, rng.state())
}

#[test]
fn same_seed_and_candidates_produce_same_traceable_choice() {
    assert_eq!(select(42), select(42));
    assert_ne!(select(42).1, select(43).1);
}

#[test]
fn snapshots_validate_versions_and_empty_choices_do_not_advance() {
    let snapshot = RngSnapshot { algorithm_version: RNG_ALGORITHM_VERSION, state: 17, position: 4 };
    assert_eq!(DeterministicRng::from_snapshot(snapshot).unwrap().state(), snapshot);
    assert_eq!(
        DeterministicRng::from_snapshot(RngSnapshot { algorithm_version: RNG_ALGORITHM_VERSION + 1, ..snapshot }),
        None
    );

    let mut rng = DeterministicRng::from_snapshot(snapshot).unwrap();
    let mut trace = Vec::new();
    assert_eq!(choose_game_entity(&mut rng, &mut trace, Vec::new()), None);
    assert_eq!(rng.state(), snapshot);
    assert!(trace.is_empty());

    let selected =
        choose_game_entity(&mut rng, &mut trace, vec![GameEntityId(3), GameEntityId(1), GameEntityId(3)]).unwrap();
    assert_eq!(
        trace.last(),
        Some(&TraceEntry::RngChoice {
            position: 4,
            candidates: vec![GameEntityId(1), GameEntityId(3)],
            selected,
        })
    );
    assert_eq!(rng.state().position, 5);
}

#[test]
fn choices_depend_only_on_the_set_of_candidates() {
    let mut first = DeterministicRng::new(7);
    let mut second = DeterministicRng::new(7);
    let mut trace = Vec::new();
    let a = choose_game_entity(&mut first, &mut trace, vec![GameEntityId(5), GameEntityId(1), GameEntityId(8)]);
    let b = choose_game_entity(
        &mut second,
        &mut trace,
        vec![GameEntityId(8), GameEntityId(8), GameEntityId(1), GameEntityId(5)],
    );
    assert_eq!(a, b);
    assert_eq!(first, second);
}

#[test]
fn the_generator_is_splitmix64() {
    let mut rng = DeterministicRng::new(0);
    assert_eq!(rng.next_u64(), 0xE220_A839_7B1D_CDAF);
    assert_eq!(rng.state().position, 1);
}
