use champ_select::errors::SelectError;
use champ_select::pool::CandidatePool;
use champ_select::rng::RandomSource;

fn s(x: &str) -> String {
    x.to_string()
}

#[test]
fn items_for_unknown_player_fails() {
    let pool = CandidatePool::new();
    assert!(matches!(pool.items_for(&s("nobody")), Err(SelectError::UnknownPlayer)));
}

#[test]
fn insert_then_items_for_returns_the_list_in_order() {
    let mut pool = CandidatePool::new();
    pool.insert(s("A"), s("x"));
    pool.insert(s("A"), s("y"));
    pool.insert(s("B"), s("x"));
    assert_eq!(pool.items_for(&s("A")).unwrap(), vec![s("x"), s("y")]);
    assert_eq!(pool.items_for(&s("B")).unwrap(), vec![s("x")]);
}

#[test]
fn pick_and_consume_removes_the_choice_everywhere() {
    // A draw forced to the first option takes x from A; x must then be gone
    // from B's list too, including players not processed yet.
    let mut pool = CandidatePool::new();
    pool.insert(s("A"), s("x"));
    pool.insert(s("A"), s("y"));
    pool.insert(s("B"), s("x"));
    pool.insert(s("B"), s("y"));
    let mut src = RandomSource::from_words(vec![0]);
    let picked = pool.pick_and_consume(&s("A"), &mut src).unwrap();
    assert_eq!(picked, s("x"));
    assert_eq!(pool.items_for(&s("A")).unwrap(), vec![s("y")]);
    assert_eq!(pool.items_for(&s("B")).unwrap(), vec![s("y")]);
}

#[test]
fn pick_from_exhausted_list_fails() {
    let mut pool = CandidatePool::new();
    pool.insert(s("A"), s("x"));
    pool.insert(s("B"), s("x"));
    let mut src = RandomSource::from_words(vec![0]);
    pool.pick_and_consume(&s("A"), &mut src).unwrap();
    // B's only item was consumed by A's pick.
    assert!(matches!(
        pool.pick_and_consume(&s("B"), &mut src),
        Err(SelectError::EmptyCandidateSet)
    ));
    // B is still a registered player with an empty list, not an unknown one.
    assert_eq!(pool.items_for(&s("B")).unwrap(), Vec::<String>::new());
}

#[test]
fn filtered_items_for_keeps_only_allowed_items() {
    let mut pool = CandidatePool::new();
    pool.insert(s("A"), s("x"));
    pool.insert(s("A"), s("j1"));
    pool.insert(s("A"), s("y"));
    pool.insert(s("A"), s("j2"));
    let allowed = vec![s("j1"), s("j2"), s("j9")];
    assert_eq!(pool.filtered_items_for(&s("A"), &allowed).unwrap(), vec![s("j1"), s("j2")]);
    assert!(matches!(
        pool.filtered_items_for(&s("Z"), &allowed),
        Err(SelectError::UnknownPlayer)
    ));
}

#[test]
fn register_keeps_duplicates_out() {
    let mut pool = CandidatePool::new();
    pool.register(s("A"));
    pool.register(s("A"));
    assert_eq!(pool.items_for(&s("A")).unwrap(), Vec::<String>::new());
}

#[test]
fn tape_draws_cycle_and_stay_below_bound() {
    let mut src = RandomSource::from_words(vec![5, 6]);
    assert_eq!(src.draw_below(4), 1); // 5 % 4
    assert_eq!(src.draw_below(4), 2); // 6 % 4
    assert_eq!(src.draw_below(4), 1); // back to the first word
    let mut empty = RandomSource::from_words(vec![]);
    assert_eq!(empty.draw_below(3), 0);
    assert_eq!(empty.draw_below(7), 0);
}
