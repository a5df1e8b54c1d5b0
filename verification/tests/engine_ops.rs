use flash_fuzzy::engine::Engine;
use flash_fuzzy::types::{
    MAX_PATTERN_LEN, MAX_RECORDS, MAX_RESULTS, SCRATCHPAD_SIZE, STRING_POOL_SIZE,
};

fn stage(engine: &mut Engine, bytes: &[u8]) {
    let buffer = engine.get_write_buffer(bytes.len() as u32).unwrap();
    buffer[..bytes.len()].copy_from_slice(bytes);
    engine.commit_write(bytes.len() as u32);
}

fn add_text(engine: &mut Engine, id: u32, text: &[u8]) -> i32 {
    stage(engine, text);
    engine.add_record(id)
}

fn set_pattern(engine: &mut Engine, pattern: &[u8]) {
    stage(engine, pattern);
    engine.prepare_pattern();
}

fn results_of(engine: &Engine) -> Vec<(u32, u32, u32, u32)> {
    let mut out = Vec::new();
    let mut i = 0;
    while engine.get_result_score(i) != 0 || engine.get_result_end(i) != 0 {
        out.push((
            engine.get_result_id(i),
            engine.get_result_score(i),
            engine.get_result_start(i),
            engine.get_result_end(i),
        ));
        i += 1;
    }
    out
}

#[test]
fn a_fresh_engine_is_empty_and_has_the_defaults() {
    let mut engine = Engine::new();
    assert_eq!(engine.get_record_count(), 0);
    assert_eq!(engine.get_string_pool_used(), 0);
    assert_eq!(engine.get_available_memory(), STRING_POOL_SIZE as u32);
    assert_eq!(engine.compact(), 0);
    assert_eq!(engine.search(), 0);
    assert_eq!(engine.get_result_id(0), 0);
    assert_eq!(engine.add_record(1), -2);
}

#[test]
fn default_threshold_is_250_and_default_budget_is_two_errors() {
    let mut engine = Engine::new();
    assert_eq!(add_text(&mut engine, 1, b"----------abdcef"), 1);
    assert_eq!(add_text(&mut engine, 2, b"----------xbdcef a"), 1);
    set_pattern(&mut engine, b"abcdef");
    assert_eq!(engine.search(), 1);
    assert_eq!(results_of(&engine), vec![(1, 500, 10, 16)]);
    engine.set_max_errors(3);
    assert_eq!(engine.search(), 2);
    assert_eq!(results_of(&engine), vec![(1, 500, 10, 16), (2, 250, 10, 16)]);
    engine.set_threshold(251);
    assert_eq!(engine.search(), 1);
    assert_eq!(results_of(&engine), vec![(1, 500, 10, 16)]);
}

#[test]
fn default_result_limit_is_fifty() {
    let mut engine = Engine::new();
    for id in 0..60 {
        assert_eq!(add_text(&mut engine, id, b"needle"), 1);
    }
    set_pattern(&mut engine, b"needle");
    assert_eq!(engine.search(), 50);
    assert_eq!(engine.get_result_id(0), 0);
    assert_eq!(engine.get_result_id(49), 49);
    assert_eq!(engine.get_result_score(49), 1000);
    assert_eq!(engine.get_result_score(50), 0);
}

#[test]
fn init_then_init_is_init() {
    let mut once = Engine::new();
    let mut twice = Engine::new();
    for engine in [&mut once, &mut twice] {
        engine.set_max_errors(0);
        engine.set_threshold(900);
        engine.set_max_results(3);
        assert_eq!(add_text(engine, 5, b"some text"), 1);
        set_pattern(engine, b"text");
        assert_eq!(engine.search(), 1);
        stage(engine, b"left over");
    }
    once.init();
    twice.init();
    twice.init();
    for engine in [&mut once, &mut twice] {
        assert_eq!(engine.get_record_count(), 0);
        assert_eq!(engine.get_string_pool_used(), 0);
        assert_eq!(engine.get_result_id(0), 0);
        assert_eq!(engine.get_result_score(0), 0);
        assert_eq!(engine.add_record(1), -2);
        assert_eq!(engine.search(), 0);
        assert_eq!(add_text(engine, 1, b"----------abdcef"), 1);
        set_pattern(engine, b"abcdef");
        assert_eq!(engine.search(), 1);
        assert_eq!(results_of(engine), vec![(1, 500, 10, 16)]);
    }
}

#[test]
fn reset_drops_the_data_and_keeps_the_configuration() {
    let mut engine = Engine::new();
    engine.set_max_errors(0);
    engine.set_max_results(1);
    assert_eq!(add_text(&mut engine, 5, b"some text"), 1);
    set_pattern(&mut engine, b"text");
    assert_eq!(engine.search(), 1);
    engine.reset();
    assert_eq!(engine.get_record_count(), 0);
    assert_eq!(engine.get_string_pool_used(), 0);
    assert_eq!(engine.get_result_score(0), 0);
    assert_eq!(add_text(&mut engine, 1, b"text"), 1);
    assert_eq!(engine.search(), 0);
    assert_eq!(add_text(&mut engine, 2, b"texs"), 1);
    assert_eq!(add_text(&mut engine, 3, b"text"), 1);
    set_pattern(&mut engine, b"text");
    assert_eq!(engine.search(), 1);
    assert_eq!(results_of(&engine), vec![(1, 1000, 0, 4)]);
}

#[test]
fn reset_leaves_staged_bytes_staged() {
    let mut engine = Engine::new();
    stage(&mut engine, b"staged");
    engine.reset();
    assert_eq!(engine.add_record(4), 1);
    assert_eq!(engine.get_string_pool_used(), 6);
}

#[test]
fn max_errors_is_clamped_to_three() {
    let mut engine = Engine::new();
    engine.set_threshold(0);
    assert_eq!(add_text(&mut engine, 1, b"xxxxefgh"), 1);
    assert_eq!(add_text(&mut engine, 2, b"axxxefgh"), 1);
    set_pattern(&mut engine, b"abcdefgh");
    engine.set_max_errors(u32::MAX);
    assert_eq!(engine.search(), 0);
    assert_eq!(add_text(&mut engine, 3, b"abcdefgh abxxxfgh"), 1);
    engine.set_max_errors(4);
    assert_eq!(engine.search(), 1);
    assert_eq!(results_of(&engine), vec![(3, 1000, 0, 8)]);
}

#[test]
fn threshold_keeps_its_low_sixteen_bits() {
    let mut engine = Engine::new();
    assert_eq!(add_text(&mut engine, 1, b"hello"), 1);
    set_pattern(&mut engine, b"hello");
    engine.set_threshold(1000);
    assert_eq!(engine.search(), 1);
    engine.set_threshold(1001);
    assert_eq!(engine.search(), 0);
    engine.set_threshold(65535);
    assert_eq!(engine.search(), 0);
    engine.set_threshold(65536);
    assert_eq!(engine.search(), 1);
    engine.set_threshold(65536 + 1001);
    assert_eq!(engine.search(), 0);
}

#[test]
fn max_results_is_clamped_and_cuts_the_results_held() {
    let mut engine = Engine::new();
    for id in 1..=150 {
        assert_eq!(add_text(&mut engine, id, b"needle"), 1);
    }
    set_pattern(&mut engine, b"needle");
    engine.set_max_results(1000);
    assert_eq!(engine.search(), MAX_RESULTS as u32);
    assert_eq!(engine.get_result_id(99), 100);
    assert_eq!(engine.get_result_id(100), 0);
    engine.set_max_results(3);
    assert_eq!(engine.get_result_id(2), 3);
    assert_eq!(engine.get_result_id(3), 0);
    assert_eq!(engine.get_result_score(3), 0);
    engine.set_max_results(10);
    assert_eq!(engine.get_result_id(3), 0);
    assert_eq!(engine.search(), 10);
    engine.set_max_results(0);
    assert_eq!(engine.get_result_id(0), 0);
    assert_eq!(engine.search(), 0);
}

#[test]
fn write_buffer_is_the_whole_scratchpad_or_nothing() {
    let mut engine = Engine::new();
    assert_eq!(engine.get_write_buffer(0).map(|b| b.len()), Some(SCRATCHPAD_SIZE));
    assert_eq!(engine.get_write_buffer(SCRATCHPAD_SIZE as u32).map(|b| b.len()), Some(SCRATCHPAD_SIZE));
    assert!(engine.get_write_buffer(SCRATCHPAD_SIZE as u32 + 1).is_none());
    assert!(engine.get_write_buffer(u32::MAX).is_none());
}

#[test]
fn commit_write_is_clamped_to_the_scratchpad() {
    let mut engine = Engine::new();
    engine.get_write_buffer(0).unwrap().fill(b'a');
    engine.commit_write(u32::MAX);
    assert_eq!(engine.add_record(1), 1);
    assert_eq!(engine.get_string_pool_used(), SCRATCHPAD_SIZE as u32);
    engine.commit_write(SCRATCHPAD_SIZE as u32 + 1);
    assert_eq!(engine.add_record(2), 1);
    assert_eq!(engine.get_string_pool_used(), 2 * SCRATCHPAD_SIZE as u32);
    engine.commit_write(3);
    assert_eq!(engine.add_record(3), 1);
    assert_eq!(engine.get_string_pool_used(), 2 * SCRATCHPAD_SIZE as u32 + 3);
}

#[test]
fn a_record_as_long_as_the_scratchpad_is_searched_to_its_end() {
    let mut engine = Engine::new();
    {
        let buffer = engine.get_write_buffer(0).unwrap();
        buffer.fill(b'-');
        buffer[SCRATCHPAD_SIZE - 6..].copy_from_slice(b"needle");
    }
    engine.commit_write(SCRATCHPAD_SIZE as u32);
    assert_eq!(engine.add_record(9), 1);
    set_pattern(&mut engine, b"needle");
    engine.set_max_errors(0);
    assert_eq!(engine.search(), 1);
    assert_eq!(
        results_of(&engine),
        vec![(9, 1000, SCRATCHPAD_SIZE as u32 - 6, SCRATCHPAD_SIZE as u32)]
    );
}

#[test]
fn add_record_fails_on_empty_input() {
    let mut engine = Engine::new();
    assert_eq!(engine.add_record(1), -2);
    stage(&mut engine, b"");
    assert_eq!(engine.add_record(1), -2);
    assert_eq!(engine.get_record_count(), 0);
    assert_eq!(add_text(&mut engine, 1, b"x"), 1);
    assert_eq!(engine.add_record(2), -2);
    assert_eq!(engine.get_record_count(), 1);
}

#[test]
fn add_record_fails_when_the_pool_is_full() {
    let mut engine = Engine::new();
    let chunk = vec![b'z'; SCRATCHPAD_SIZE];
    for id in 0..(STRING_POOL_SIZE / SCRATCHPAD_SIZE) as u32 - 1 {
        assert_eq!(add_text(&mut engine, id, &chunk), 1);
    }
    assert_eq!(add_text(&mut engine, 100, &chunk[..SCRATCHPAD_SIZE - 1]), 1);
    assert_eq!(engine.get_available_memory(), 1);
    assert_eq!(add_text(&mut engine, 101, b"ab"), -3);
    assert_eq!(engine.get_record_count(), 64);
    assert_eq!(engine.get_available_memory(), 1);
    assert_eq!(engine.add_record(101), -3);
    assert_eq!(add_text(&mut engine, 102, b"a"), 1);
    assert_eq!(engine.get_available_memory(), 0);
    assert_eq!(engine.get_string_pool_used(), STRING_POOL_SIZE as u32);
    assert_eq!(add_text(&mut engine, 103, b"a"), -3);
    assert_eq!(engine.get_record_count(), 65);
}

#[test]
fn add_record_fails_when_the_table_is_full_before_anything_else() {
    let mut engine = Engine::new();
    for id in 0..MAX_RECORDS as u32 {
        assert_eq!(add_text(&mut engine, id, b"r"), 1);
    }
    assert_eq!(engine.get_record_count(), MAX_RECORDS as u32);
    assert_eq!(add_text(&mut engine, 7, b"r"), -1);
    stage(&mut engine, b"");
    assert_eq!(engine.add_record(7), -1);
    engine.get_write_buffer(0).unwrap().fill(b'r');
    engine.commit_write(SCRATCHPAD_SIZE as u32);
    assert_eq!(engine.add_record(7), -1);
    assert_eq!(engine.get_record_count(), MAX_RECORDS as u32);
    assert_eq!(engine.get_string_pool_used(), MAX_RECORDS as u32);
    assert_eq!(engine.remove_record(3), 1);
    assert_eq!(add_text(&mut engine, 7, b"r"), -1);
    assert_eq!(engine.compact(), MAX_RECORDS as u32);
}

#[test]
fn a_failed_add_keeps_the_bytes_staged() {
    let mut engine = Engine::new();
    let chunk = vec![b'z'; SCRATCHPAD_SIZE];
    for id in 0..(STRING_POOL_SIZE / SCRATCHPAD_SIZE) as u32 {
        assert_eq!(add_text(&mut engine, id, &chunk), 1);
    }
    stage(&mut engine, b"cat");
    assert_eq!(engine.add_record(1), -3);
    engine.prepare_pattern();
    engine.reset();
    assert_eq!(add_text(&mut engine, 2, b"a cat"), 1);
    assert_eq!(engine.search(), 0);
    set_pattern(&mut engine, b"cat");
    assert_eq!(engine.search(), 1);
}

#[test]
fn remove_record_takes_the_first_active_record_with_the_id() {
    let mut engine = Engine::new();
    assert_eq!(add_text(&mut engine, 5, b"first needle"), 1);
    assert_eq!(add_text(&mut engine, 6, b"other needle"), 1);
    assert_eq!(add_text(&mut engine, 5, b"needle again"), 1);
    set_pattern(&mut engine, b"needle");
    engine.set_max_errors(0);
    assert_eq!(engine.remove_record(9), 0);
    assert_eq!(engine.search(), 3);
    assert_eq!(engine.remove_record(5), 1);
    assert_eq!(engine.search(), 2);
    assert_eq!(results_of(&engine), vec![(6, 1000, 6, 12), (5, 1000, 0, 6)]);
    assert_eq!(engine.remove_record(5), 1);
    assert_eq!(engine.search(), 1);
    assert_eq!(results_of(&engine), vec![(6, 1000, 6, 12)]);
    assert_eq!(engine.remove_record(5), 0);
    assert_eq!(engine.get_record_count(), 3);
    assert_eq!(engine.compact(), 3);
    assert_eq!(engine.get_string_pool_used(), 36);
}

#[test]
fn search_without_a_pattern_finds_nothing() {
    let mut engine = Engine::new();
    assert_eq!(add_text(&mut engine, 1, b"hello"), 1);
    assert_eq!(engine.search(), 0);
    set_pattern(&mut engine, b"hello");
    assert_eq!(engine.search(), 1);
    set_pattern(&mut engine, b"");
    assert_eq!(engine.search(), 0);
    assert_eq!(engine.get_result_id(0), 0);
    assert_eq!(engine.get_result_score(0), 0);
}

#[test]
fn prepare_pattern_consumes_the_staged_bytes() {
    let mut engine = Engine::new();
    set_pattern(&mut engine, b"hello");
    assert_eq!(engine.add_record(1), -2);
    assert_eq!(add_text(&mut engine, 1, b"hello"), 1);
    engine.prepare_pattern();
    assert_eq!(engine.search(), 0);
}

#[test]
fn results_are_read_by_position_and_zero_beyond_the_count() {
    let mut engine = Engine::new();
    engine.set_max_errors(1);
    assert_eq!(add_text(&mut engine, 11, b"about kitten"), 1);
    assert_eq!(add_text(&mut engine, 12, b"a mitten"), 1);
    assert_eq!(add_text(&mut engine, 13, b"kitten"), 1);
    set_pattern(&mut engine, b"kitten");
    let count = engine.search();
    assert_eq!(count, 2);
    assert_eq!(results_of(&engine), vec![(11, 1000, 6, 12), (13, 1000, 0, 6)]);
    for index in [count, count + 1, 50, 100, u32::MAX] {
        assert_eq!(engine.get_result_id(index), 0);
        assert_eq!(engine.get_result_score(index), 0);
        assert_eq!(engine.get_result_start(index), 0);
        assert_eq!(engine.get_result_end(index), 0);
    }
}

#[test]
fn results_are_sorted_and_ties_keep_the_order_of_the_records() {
    let mut engine = Engine::new();
    engine.set_threshold(0);
    assert_eq!(add_text(&mut engine, 1, b"0123456789 kitxxn kitten"), 1);
    assert_eq!(add_text(&mut engine, 2, b"kitten"), 1);
    assert_eq!(add_text(&mut engine, 3, b"kitxen kitten"), 1);
    assert_eq!(add_text(&mut engine, 4, b"a kitten"), 1);
    assert_eq!(add_text(&mut engine, 5, b"kitxen"), 1);
    set_pattern(&mut engine, b"kitten");
    assert_eq!(engine.search(), 5);
    assert_eq!(
        results_of(&engine),
        vec![(2, 1000, 0, 6), (4, 1000, 2, 8), (3, 800, 0, 6), (5, 800, 0, 6), (1, 500, 11, 17)]
    );
    let mut last = u32::MAX;
    for i in 0..5 {
        assert!(engine.get_result_score(i) <= last);
        last = engine.get_result_score(i);
    }
}

#[test]
fn a_record_added_and_removed_again_is_not_found() {
    let mut with = Engine::new();
    let mut without = Engine::new();
    for engine in [&mut with, &mut without] {
        engine.set_threshold(0);
        assert_eq!(add_text(engine, 1, b"kitten"), 1);
        assert_eq!(add_text(engine, 2, b"kittne"), 1);
    }
    assert_eq!(add_text(&mut with, 3, b"kitten"), 1);
    assert_eq!(with.remove_record(3), 1);
    set_pattern(&mut with, b"kitten");
    set_pattern(&mut without, b"kitten");
    assert_eq!(with.search(), without.search());
    assert_eq!(results_of(&with), results_of(&without));
    assert_eq!(results_of(&with), vec![(1, 1000, 0, 6), (2, 550, 0, 6)]);
    assert_eq!(with.get_record_count(), 3);
    assert_eq!(without.get_record_count(), 2);
}

#[test]
fn every_text_up_to_the_longest_pattern_finds_itself() {
    for len in 1..=MAX_PATTERN_LEN {
        let text: Vec<u8> = (0..len).map(|i| b'a' + (i % 26) as u8).collect();
        for errors in 0..=3 {
            let mut engine = Engine::new();
            engine.set_max_errors(errors);
            assert_eq!(add_text(&mut engine, 77, &text), 1);
            set_pattern(&mut engine, &text);
            assert_eq!(engine.search(), 1);
            assert_eq!(results_of(&engine), vec![(77, 1000, 0, len as u32)]);
        }
    }
}

#[test]
fn results_do_not_depend_on_case() {
    let texts: [&[u8]; 3] = [b"The Quick Brown Fox", b"quick brown", b"a QUICK bROWN dog"];
    let mut plain = Engine::new();
    let mut mixed = Engine::new();
    for (i, text) in texts.iter().enumerate() {
        assert_eq!(add_text(&mut plain, i as u32, text), 1);
        assert_eq!(add_text(&mut mixed, i as u32, &text.to_ascii_uppercase()), 1);
    }
    set_pattern(&mut plain, b"quick brown");
    set_pattern(&mut mixed, b"QuIcK BrOwN");
    assert_eq!(plain.search(), 3);
    assert_eq!(mixed.search(), 3);
    assert_eq!(results_of(&plain), results_of(&mixed));
    assert_eq!(results_of(&plain), vec![(0, 1000, 4, 15), (1, 1000, 0, 11), (2, 1000, 2, 13)]);
}

#[test]
fn only_the_first_bytes_of_a_long_pattern_count() {
    let long = b"abcdefghijklmnopqrstuvwxyz0123456789";
    let mut engine = Engine::new();
    engine.set_max_errors(0);
    assert_eq!(add_text(&mut engine, 1, b"abcdefghijklmnopqrstuvwxyz012345"), 1);
    assert_eq!(add_text(&mut engine, 2, b"abcdefghijklmnopqrstuvwxyz01234"), 1);
    assert_eq!(add_text(&mut engine, 3, b"--abcdefghijklmnopqrstuvwxyz012345xyz"), 1);
    set_pattern(&mut engine, long);
    assert_eq!(engine.search(), 2);
    let cut_by_engine = results_of(&engine);
    set_pattern(&mut engine, &long[..MAX_PATTERN_LEN]);
    assert_eq!(engine.search(), 2);
    assert_eq!(results_of(&engine), cut_by_engine);
    assert_eq!(cut_by_engine, vec![(1, 1000, 0, 32), (3, 1000, 2, 34)]);
}

#[test]
fn without_errors_only_exact_occurrences_are_reported() {
    let mut engine = Engine::new();
    engine.set_max_errors(0);
    engine.set_threshold(0);
    assert_eq!(add_text(&mut engine, 1, b"banana"), 1);
    assert_eq!(add_text(&mut engine, 2, b"banaba"), 1);
    assert_eq!(add_text(&mut engine, 3, b"a BANANA split"), 1);
    assert_eq!(add_text(&mut engine, 4, b"bananb anana"), 1);
    set_pattern(&mut engine, b"banana");
    assert_eq!(engine.search(), 2);
    assert_eq!(results_of(&engine), vec![(1, 1000, 0, 6), (3, 1000, 2, 8)]);
}

#[test]
fn a_filtered_record_is_skipped_whatever_the_error_budget() {
    let mut engine = Engine::new();
    engine.set_max_errors(3);
    engine.set_threshold(0);
    assert_eq!(add_text(&mut engine, 1, b"hellp"), 1);
    assert_eq!(add_text(&mut engine, 2, b"help lo"), 1);
    set_pattern(&mut engine, b"hello");
    assert_eq!(engine.search(), 1);
    assert_eq!(results_of(&engine), vec![(2, 550, 0, 5)]);
}

#[test]
fn duplicate_ids_give_one_result_for_each_record() {
    let mut engine = Engine::new();
    assert_eq!(add_text(&mut engine, 8, b"needle"), 1);
    assert_eq!(add_text(&mut engine, 8, b"needle"), 1);
    set_pattern(&mut engine, b"needle");
    assert_eq!(engine.search(), 2);
    assert_eq!(results_of(&engine), vec![(8, 1000, 0, 6), (8, 1000, 0, 6)]);
}

#[test]
fn a_search_starts_from_an_empty_buffer() {
    let mut engine = Engine::new();
    assert_eq!(add_text(&mut engine, 1, b"alpha"), 1);
    assert_eq!(add_text(&mut engine, 2, b"beta"), 1);
    set_pattern(&mut engine, b"alpha");
    assert_eq!(engine.search(), 1);
    assert_eq!(engine.search(), 1);
    set_pattern(&mut engine, b"gamma");
    assert_eq!(engine.search(), 0);
    assert_eq!(engine.get_result_id(0), 0);
}
