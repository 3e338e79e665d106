use typewell::game::{Game, GameConfig, KeyPress, WordEntry};
use typewell::romaji::RomajiRules;

fn cfg_words(max_words: usize) -> GameConfig {
    GameConfig {
        time_limit_ms: u64::MAX,
        max_words,
        loss_ms_per_miss: 200,
        fixed_chars: false,
        target_chars: 0,
    }
}

fn cfg_chars(target: usize) -> GameConfig {
    GameConfig {
        time_limit_ms: u64::MAX,
        max_words: usize::MAX,
        loss_ms_per_miss: 200,
        fixed_chars: true,
        target_chars: target,
    }
}

fn two_words() -> Vec<WordEntry> {
    vec![
        WordEntry { jp: "あい".to_string(), romas: vec!["ai".to_string()] },
        WordEntry { jp: "しお".to_string(), romas: vec!["shio".to_string()] },
    ]
}

#[test]
fn char_count_mode_stops_mid_word() {
    // In character-count mode the session finishes at the first moment the
    // cumulative correct-keystroke count reaches the target, mid-word, and
    // no split is produced for the word in progress.
    let words = vec![WordEntry { jp: "あいうえ".to_string(), romas: vec!["aiue".to_string()] }];
    let mut g = Game::new_with_rules(cfg_chars(3), words, RomajiRules::standard());
    g.start();
    assert!(!g.handle_key(KeyPress::Char('a'), 10));
    assert!(!g.handle_key(KeyPress::Char('i'), 20));
    let done = g.handle_key(KeyPress::Char('u'), 30);
    assert!(done);
    assert_eq!(g.current_typed_total(), 3);
    assert_eq!(g.current_index(), 0);
    let rec = g.finish_record("t".to_string());
    assert_eq!(rec.splits.len(), 0);
    // further keys change nothing
    assert!(g.handle_key(KeyPress::Char('e'), 40));
    assert_eq!(g.current_typed_total(), 3);
}

#[test]
fn miss_penalty_shifts_elapsed() {
    // A miss debits the configured duration by rewinding both anchors.
    let mut g = Game::new_with_rules(cfg_words(10), two_words(), RomajiRules::standard());
    g.start();
    assert_eq!(g.elapsed_ms(5000), 0); // idle session shows zero
    g.handle_key(KeyPress::Char('x'), 1000); // miss on the first keystroke
    assert_eq!(g.miss(), 1);
    assert_eq!(g.elapsed_ms(1000), 200);
    g.handle_key(KeyPress::Char('x'), 1000);
    assert_eq!(g.miss(), 2);
    assert_eq!(g.elapsed_ms(1000), 400);
}

#[test]
fn split_misses_bounded_by_total() {
    // The split miss counts never total more than the session count.
    let mut g = Game::new_with_rules(cfg_words(10), two_words(), RomajiRules::standard());
    g.start();
    let mut now = 0u64;
    for c in "axi".chars() {
        now += 50;
        g.handle_key(KeyPress::Char(c), now);
    }
    // mid-word misses on the second word are counted but not yet in a split
    for c in "szz".chars() {
        now += 50;
        g.handle_key(KeyPress::Char(c), now);
    }
    assert_eq!(g.miss(), 3);
    assert!(g.current_index() <= g.words_len());
    g.handle_key(KeyPress::Esc, now + 10);
    let rec = g.finish_record("t".to_string());
    let sum: u32 = rec.splits.iter().map(|s| s.miss).sum();
    assert!(sum <= rec.miss);
}

#[test]
fn elapsed_monotone_and_frozen() {
    // Elapsed time never decreases, and is constant once finished.
    let mut g = Game::new_with_rules(cfg_words(10), two_words(), RomajiRules::standard());
    g.start();
    g.handle_key(KeyPress::Char('a'), 1000);
    let e1 = g.elapsed_ms(1500);
    let e2 = g.elapsed_ms(2500);
    assert!(e1 <= e2);
    g.handle_key(KeyPress::Esc, 3000);
    let f1 = g.elapsed_ms(3000);
    let f2 = g.elapsed_ms(90_000);
    assert_eq!(f1, f2);
    assert_eq!(f1, 2000);
    assert!(g.aborted());
}

#[test]
fn word_count_mode_truncates_and_finishes() {
    let mut words = two_words();
    words.push(WordEntry { jp: "うみ".to_string(), romas: vec!["umi".to_string()] });
    let mut g = Game::new_with_rules(cfg_words(2), words, RomajiRules::standard());
    assert_eq!(g.words_len(), 2);
    g.start();
    let mut now = 0u64;
    for c in "ai".chars() {
        now += 100;
        g.handle_key(KeyPress::Char(c), now);
    }
    assert_eq!(g.current_index(), 1);
    let mut done = false;
    for c in "sio".chars() {
        now += 100;
        done = g.handle_key(KeyPress::Char(c), now);
    }
    assert!(done);
    let rec = g.finish_record("t".to_string());
    assert_eq!(rec.splits.len(), 2);
    assert_eq!(rec.splits[0].word, "あい");
    assert_eq!(rec.splits[1].word, "しお");
}

#[test]
fn non_ascii_input_is_ignored() {
    let mut g = Game::new_with_rules(cfg_words(10), two_words(), RomajiRules::standard());
    g.start();
    g.handle_key(KeyPress::Char('あ'), 1000);
    assert_eq!(g.miss(), 0);
    assert_eq!(g.current_typed_total(), 0);
    let rec_after = {
        g.handle_key(KeyPress::Esc, 2000);
        g.finish_record("t".to_string())
    };
    // ignored input is never logged
    assert!(rec_after.replay.is_none());
}

#[test]
fn empty_word_list_cannot_start_but_does_not_crash() {
    let mut g = Game::new_with_rules(cfg_words(10), Vec::new(), RomajiRules::standard());
    g.start();
    assert!(!g.handle_key(KeyPress::Char('a'), 100));
    assert_eq!(g.current_typed_total(), 0);
    g.on_tick(200);
    // with no words the word-count goal is already met
    let rec = g.finish_record("t".to_string());
    assert_eq!(rec.splits.len(), 0);
}

#[test]
fn replay_log_is_chronological() {
    let mut g = Game::new_with_rules(cfg_words(10), two_words(), RomajiRules::standard());
    g.start();
    g.handle_key(KeyPress::Char('a'), 1000);
    g.handle_key(KeyPress::Char('x'), 1400);
    g.handle_key(KeyPress::Char('i'), 2000);
    g.handle_key(KeyPress::Esc, 2500);
    let rec = g.finish_record("t".to_string());
    let evs = rec.replay.expect("events were logged");
    assert_eq!(evs.len(), 3);
    assert_eq!(evs[0].c, 'a');
    assert!(evs[0].ok);
    assert_eq!(evs[0].t, 0);
    assert_eq!(evs[1].c, 'x');
    assert!(!evs[1].ok);
    // the penalty is applied before the miss is logged
    assert_eq!(evs[1].t, 600);
    assert!(evs[2].ok);
    assert!(evs[0].t <= evs[1].t && evs[1].t <= evs[2].t);
    assert_eq!(evs[0].w, 0);
}

#[test]
fn variant_actually_used_is_recorded() {
    let words = vec![
        WordEntry { jp: "しし".to_string(), romas: vec!["shishi".to_string()] },
        WordEntry { jp: "あい".to_string(), romas: vec!["ai".to_string()] },
    ];
    let mut g = Game::new_with_rules(cfg_words(10), words, RomajiRules::standard());
    g.start();
    let mut now = 0u64;
    for c in "sisi".chars() {
        now += 100;
        g.handle_key(KeyPress::Char(c), now);
    }
    assert_eq!(g.current_index(), 1);
    assert_eq!(g.roma_for_index(0), "sisi");
    assert_eq!(g.roma_for_index(1), "ai");
}

#[test]
fn uppercase_input_is_lowered() {
    let mut g = Game::new_with_rules(cfg_words(10), two_words(), RomajiRules::standard());
    g.start();
    g.handle_key(KeyPress::Char('A'), 100);
    g.handle_key(KeyPress::Char('I'), 200);
    assert_eq!(g.current_index(), 1);
    assert_eq!(g.miss(), 0);
}

#[test]
fn current_line_display_brackets_current_word() {
    let mut g = Game::new_with_rules(cfg_words(10), two_words(), RomajiRules::standard());
    g.start();
    assert_eq!(g.current_line_display(), "[あい] しお ");
}

#[test]
fn split_table_lines() {
    let mut g = Game::new_with_rules(cfg_words(10), two_words(), RomajiRules::standard());
    g.start();
    g.handle_key(KeyPress::Char('a'), 1000);
    g.handle_key(KeyPress::Char('i'), 1500);
    assert_eq!(g.split_table_text(), " 1 あい   0.500s  miss 0\n");
}

#[test]
fn progress_ratio_permille() {
    let words = vec![WordEntry { jp: "あいうえ".to_string(), romas: vec!["aiue".to_string()] }];
    let mut g = Game::new_with_rules(cfg_chars(100), words, RomajiRules::standard());
    g.start();
    assert_eq!(g.progress_ratio(), 0);
    g.handle_key(KeyPress::Char('a'), 10);
    assert_eq!(g.progress_ratio(), 10);
}

#[test]
fn jp_progress_tracks_typing() {
    let words = vec![WordEntry { jp: "あい".to_string(), romas: vec!["ai".to_string()] }];
    let mut g = Game::new_with_rules(cfg_words(10), words, RomajiRules::standard());
    g.start();
    let (done, next, rest) = g.current_jp_progress();
    assert_eq!(done, "");
    assert_eq!(next, Some('あ'));
    assert_eq!(rest, "い");
    g.handle_key(KeyPress::Char('a'), 100);
    let (done2, next2, rest2) = g.current_jp_progress();
    assert_eq!(done2, "あ");
    assert_eq!(next2, Some('い'));
    assert_eq!(rest2, "");
}

#[test]
fn begin_now_sets_both_anchors_once() {
    let mut g = Game::new_with_rules(cfg_words(10), two_words(), RomajiRules::standard());
    g.start();
    g.begin_now(500);
    assert_eq!(g.elapsed_ms(1500), 1000);
    // a second call changes nothing
    g.begin_now(9000);
    assert_eq!(g.elapsed_ms(1500), 1000);
}

#[test]
fn time_left_counts_down() {
    let cfg = GameConfig {
        time_limit_ms: 10_000,
        max_words: 10,
        loss_ms_per_miss: 0,
        fixed_chars: false,
        target_chars: 0,
    };
    let mut g = Game::new_with_rules(cfg, two_words(), RomajiRules::standard());
    g.start();
    assert_eq!(g.time_left_ms(99_000), 10_000); // timer has not started
    g.handle_key(KeyPress::Char('a'), 1000);
    assert_eq!(g.time_left_ms(3000), 8000);
    assert_eq!(g.time_left_ms(50_000), 0);
}

#[test]
fn tick_records_speed_sample() {
    let mut g = Game::new_with_rules(cfg_words(10), two_words(), RomajiRules::standard());
    g.start();
    g.handle_key(KeyPress::Char('a'), 1000);
    g.on_tick(2000);
    let pts = g.speed_points();
    assert_eq!(pts.len(), 1);
    // one keystroke over one second, in milli-keys-per-second
    assert_eq!(pts[0], (1000, 1000));
    assert_eq!(g.current_level(2000), "F");
}
