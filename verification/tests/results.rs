use flash_fuzzy::results::insert_result;
use flash_fuzzy::types::ScoredResult;

fn entry(id: u32, score: u16) -> ScoredResult {
    ScoredResult::new(id, score, 0, 1)
}

fn ids(buffer: &[ScoredResult]) -> Vec<u32> {
    buffer.iter().map(|r| r.id).collect()
}

#[test]
fn scored_result_new_keeps_its_arguments() {
    let r = ScoredResult::new(9, 800, 2, 7);
    assert_eq!(r, ScoredResult { id: 9, score: 800, start: 2, end: 7 });
}

#[test]
fn results_are_kept_best_first() {
    let mut buffer = Vec::new();
    insert_result(&mut buffer, entry(1, 500), 10);
    insert_result(&mut buffer, entry(2, 900), 10);
    insert_result(&mut buffer, entry(3, 700), 10);
    insert_result(&mut buffer, entry(4, 100), 10);
    assert_eq!(ids(&buffer), vec![2, 3, 1, 4]);
}

#[test]
fn equal_scores_stay_in_the_order_of_arrival() {
    let mut buffer = Vec::new();
    insert_result(&mut buffer, entry(1, 800), 10);
    insert_result(&mut buffer, entry(2, 800), 10);
    insert_result(&mut buffer, entry(3, 900), 10);
    insert_result(&mut buffer, entry(4, 800), 10);
    assert_eq!(ids(&buffer), vec![3, 1, 2, 4]);
}

#[test]
fn a_full_buffer_turns_away_what_does_not_beat_its_last_entry() {
    let mut buffer = Vec::new();
    insert_result(&mut buffer, entry(1, 900), 2);
    insert_result(&mut buffer, entry(2, 700), 2);
    insert_result(&mut buffer, entry(3, 700), 2);
    assert_eq!(ids(&buffer), vec![1, 2]);
    insert_result(&mut buffer, entry(4, 600), 2);
    assert_eq!(ids(&buffer), vec![1, 2]);
}

#[test]
fn a_full_buffer_gives_up_its_last_entry_for_a_better_one() {
    let mut buffer = Vec::new();
    insert_result(&mut buffer, entry(1, 900), 2);
    insert_result(&mut buffer, entry(2, 700), 2);
    insert_result(&mut buffer, entry(3, 800), 2);
    assert_eq!(ids(&buffer), vec![1, 3]);
    insert_result(&mut buffer, entry(4, 1000), 2);
    assert_eq!(ids(&buffer), vec![4, 1]);
    insert_result(&mut buffer, entry(5, 900), 2);
    assert_eq!(ids(&buffer), vec![4, 1]);
}

#[test]
fn a_buffer_without_room_keeps_nothing() {
    let mut buffer = Vec::new();
    insert_result(&mut buffer, entry(1, 1000), 0);
    assert!(buffer.is_empty());
}

#[test]
fn a_buffer_of_one_keeps_the_first_of_the_best() {
    let mut buffer = Vec::new();
    insert_result(&mut buffer, entry(1, 500), 1);
    insert_result(&mut buffer, entry(2, 500), 1);
    insert_result(&mut buffer, entry(3, 600), 1);
    insert_result(&mut buffer, entry(4, 600), 1);
    assert_eq!(buffer, vec![entry(3, 600)]);
}
