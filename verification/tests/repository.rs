use codestrain::battle::BattleResult;
use codestrain::{run_battle, BattleRepository, StrainHandle};

fn record(id: u128, a: u128, b: u128) -> BattleResult {
    BattleResult {
        id,
        arena_size: 2,
        strain_a: a,
        strain_b: b,
        winner: None,
        score_a: 1,
        score_b: 1,
        log: vec![],
    }
}

#[test]
fn replace_supersedes_the_same_ordered_pair() {
    let mut repo = BattleRepository::new();
    repo.replace(record(1, 10, 20));
    assert_eq!(repo.records().len(), 1);
    repo.replace(record(2, 10, 20));
    assert_eq!(repo.records().len(), 1);
    assert_eq!(repo.records()[0].id, 2);
    assert!(repo.get(1).is_none());
    assert_eq!(repo.get(2).unwrap().id, 2);
}

#[test]
fn replace_keeps_other_pairs() {
    let mut repo = BattleRepository::new();
    repo.replace(record(1, 10, 20));
    // the reversed pair is a different ordered pair
    repo.replace(record(2, 20, 10));
    repo.replace(record(3, 10, 30));
    assert_eq!(repo.records().len(), 3);
    repo.replace(record(4, 10, 20));
    assert_eq!(repo.records().len(), 3);
    assert!(repo.get(1).is_none());
    assert_eq!(repo.get(2).unwrap().strain_a, 20);
    assert_eq!(repo.get(3).unwrap().strain_b, 30);
    assert_eq!(repo.get(4).unwrap().strain_b, 20);
}

#[test]
fn rerunning_a_battle_leaves_a_single_record() {
    let mut repo = BattleRepository::new();
    let first = run_battle(10, 20, 2, 2, StrainHandle::Failing, StrainHandle::Failing).unwrap();
    let first_id = first.id;
    repo.replace(first);
    let second = run_battle(10, 20, 2, 2, StrainHandle::Failing, StrainHandle::Failing).unwrap();
    let second_id = second.id;
    repo.replace(second);
    assert_eq!(repo.records().len(), 1);
    assert_eq!(repo.records()[0].id, second_id);
    if first_id != second_id {
        assert!(repo.get(first_id).is_none());
    }
    let stored = repo.get(second_id).unwrap();
    assert_eq!(stored.strain_a, 10);
    assert_eq!(stored.strain_b, 20);
    assert_eq!(stored.log.len(), 4);
}

#[test]
fn get_finds_by_identifier() {
    let mut repo = BattleRepository::new();
    assert!(repo.get(5).is_none());
    repo.replace(record(5, 1, 2));
    repo.replace(record(6, 3, 4));
    assert_eq!(repo.get(5).unwrap().strain_a, 1);
    assert_eq!(repo.get(6).unwrap().strain_a, 3);
    assert!(repo.get(7).is_none());
}
