use typewell::game::{Game, GameConfig, KeyPress, Split, WordEntry, accumulate_session_words,
    build_session_words, min_roma_len, clone_entry};
use typewell::level::estimate_rank;
use typewell::romaji::RomajiRules;
use typewell::score::{ScoreBook, ScoreRecord, SplitRec};
use typewell::stats::{compute_wpm_stats, moving_speed_series};
use typewell::config::AppConfig;

fn cfg() -> GameConfig {
    GameConfig {
        time_limit_ms: u64::MAX,
        max_words: 10,
        loss_ms_per_miss: 200,
        fixed_chars: false,
        target_chars: 0,
    }
}

#[test]
fn rank_thresholds() {
    assert_eq!(estimate_rank(13_000), "XS");
    assert_eq!(estimate_rank(12_999), "XD");
    assert_eq!(estimate_rank(9_500), "XC");
    assert_eq!(estimate_rank(8_000), "SA");
    assert_eq!(estimate_rank(7_500), "SB");
    assert_eq!(estimate_rank(6_000), "A");
    assert_eq!(estimate_rank(5_999), "B");
    assert_eq!(estimate_rank(4_000), "C");
    assert_eq!(estimate_rank(3_000), "D");
    assert_eq!(estimate_rank(2_000), "E");
    assert_eq!(estimate_rank(1_999), "F");
    assert_eq!(estimate_rank(0), "F");
}

#[test]
fn wpm_stats_exact() {
    let splits = vec![
        Split { word: "a".to_string(), ms: 1000, miss: 0, keystrokes: 5 },
        Split { word: "b".to_string(), ms: 2000, miss: 1, keystrokes: 5 },
        Split { word: "c".to_string(), ms: 0, miss: 0, keystrokes: 9 }, // skipped
        Split { word: "d".to_string(), ms: 500, miss: 0, keystrokes: 0 }, // skipped
    ];
    let (top, worst) = compute_wpm_stats(&splits);
    // 5 keystrokes in 1 s = 300 per minute, in milli-units
    assert_eq!(top, 300_000);
    assert_eq!(worst, 150_000);
    let (t0, w0) = compute_wpm_stats(&Vec::new());
    assert_eq!(t0, 0);
    assert_eq!(w0, 0);
}

#[test]
fn finish_record_fields() {
    let words = vec![WordEntry { jp: "あい".to_string(), romas: vec!["ai".to_string()] }];
    let mut g = Game::new_with_rules(cfg(), words, RomajiRules::standard());
    g.start();
    g.handle_key(KeyPress::Char('a'), 1000);
    g.handle_key(KeyPress::Char('x'), 1200);
    g.handle_key(KeyPress::Char('i'), 2000);
    let rec = g.finish_record("2024-01-02T03:04:05+09:00".to_string());
    assert_eq!(rec.mode, "basic_common");
    assert_eq!(rec.datetime, "2024-01-02T03:04:05+09:00");
    // one miss rewound the start anchor by 200 ms
    assert_eq!(rec.time_ms, 1200);
    assert_eq!(rec.miss, 1);
    assert_eq!(rec.timeloss_ms, 200);
    assert_eq!(rec.splits.len(), 1);
    assert_eq!(rec.splits[0].word, "あい");
    assert_eq!(rec.splits[0].miss, 1);
    assert_eq!(rec.splits[0].ms, 1200);
    // 2 keystrokes in 1.2 s of counted time
    assert_eq!(rec.rank, estimate_rank(2 * 1_000_000 / 1200));
    assert!(rec.memo.is_none());
    assert!(rec.word_display.is_none());
}

#[test]
fn finalize_is_idempotent() {
    // Two records from the same finished session agree byte for byte.
    let words = vec![WordEntry { jp: "あい".to_string(), romas: vec!["ai".to_string()] }];
    let mut g = Game::new_with_rules(cfg(), words, RomajiRules::standard());
    g.start();
    g.handle_key(KeyPress::Char('a'), 1000);
    g.handle_key(KeyPress::Char('i'), 2000);
    let r1 = g.finish_record("ts".to_string());
    let r2 = g.finish_record("ts".to_string());
    assert_eq!(r1, r2);
}

fn rec_with(dt: &str, time_ms: u64) -> ScoreRecord {
    let mut r = ScoreRecord::default();
    r.datetime = dt.to_string();
    r.time_ms = time_ms;
    r.splits = vec![SplitRec { word: "w".to_string(), ms: time_ms / 2, miss: 0 }];
    r
}

#[test]
fn scorebook_insert_and_rank() {
    let mut book = ScoreBook::new();
    assert!(book.check_sorted());
    let (pos, pb) = book.insert_and_rank(rec_with("t1", 5000));
    assert_eq!(pos, Some(1));
    assert!(pb);
    let (pos2, pb2) = book.insert_and_rank(rec_with("t2", 6000));
    assert_eq!(pos2, Some(2));
    assert!(!pb2);
    let (pos3, pb3) = book.insert_and_rank(rec_with("t3", 4000));
    assert_eq!(pos3, Some(1));
    assert!(pb3);
    assert_eq!(book.top.len(), 3);
    assert!(book.top[0].time_ms <= book.top[1].time_ms);
    assert!(book.top[1].time_ms <= book.top[2].time_ms);
    // laps are kept sorted and capped at ten
    assert_eq!(book.lap.len(), 3);
    assert!(book.lap[0].time_ms <= book.lap[1].time_ms);
    assert_eq!(book.lap[0].word_display.as_deref(), Some("w"));
}

#[test]
fn scorebook_set_memo() {
    let mut book = ScoreBook::new();
    book.insert_and_rank(rec_with("t1", 5000));
    assert!(book.set_memo_by_datetime("t1", "nice run".to_string()));
    assert_eq!(book.top[0].memo.as_deref(), Some("nice run"));
    assert!(!book.set_memo_by_datetime("t9", "nothing".to_string()));
}

#[test]
fn scorebook_keeps_top_hundred() {
    let mut book = ScoreBook::new();
    for i in 0..105u64 {
        let mut r = ScoreRecord::default();
        r.datetime = format!("t{}", i);
        r.time_ms = 10_000 - i * 10;
        book.insert_and_rank(r);
    }
    assert_eq!(book.top.len(), 100);
    assert!(book.check_sorted());
}

#[test]
fn accumulate_cycles_until_target() {
    let pool = vec![
        WordEntry { jp: "あ".to_string(), romas: vec!["shi".to_string()] }, // 3 keys
        WordEntry { jp: "い".to_string(), romas: vec!["aiue".to_string()] }, // 4 keys
    ];
    let out = accumulate_session_words(&pool, 5);
    assert_eq!(out.len(), 2);
    assert_eq!(out[0].romas[0], "shi");
    assert_eq!(out[1].romas[0], "aiue");
    let out2 = accumulate_session_words(&pool, 8);
    // 3 + 4 = 7 < 8, so it cycles back to the first word
    assert_eq!(out2.len(), 3);
    assert_eq!(out2[2].romas[0], "shi");
}

#[test]
fn build_session_words_is_permutation_with_zero_target() {
    let pool = vec![
        WordEntry { jp: "a".to_string(), romas: vec!["a".to_string()] },
        WordEntry { jp: "b".to_string(), romas: vec!["b".to_string()] },
        WordEntry { jp: "c".to_string(), romas: vec!["c".to_string()] },
    ];
    let out = build_session_words(pool.clone(), &RomajiRules::standard(), 0);
    let mut names: Vec<String> = out.iter().map(|e| e.jp.clone()).collect();
    names.sort();
    assert_eq!(names, vec!["a".to_string(), "b".to_string(), "c".to_string()]);
    let none = build_session_words(Vec::new(), &RomajiRules::standard(), 10);
    assert!(none.is_empty());
}

#[test]
fn min_roma_takes_shortest() {
    let e = WordEntry {
        jp: "しお".to_string(),
        romas: vec!["shio".to_string(), "sio".to_string()],
    };
    assert_eq!(min_roma_len(&e), 3);
    let copy = clone_entry(&e);
    assert_eq!(copy.jp, e.jp);
    assert_eq!(copy.romas, e.romas);
}

#[test]
fn speed_series_passthrough() {
    let pts = vec![(1u64, 2u64), (3, 4)];
    assert_eq!(moving_speed_series(&pts, 5), pts);
}

#[test]
fn app_config_defaults() {
    let c = AppConfig::default();
    assert_eq!(c.loss_ms_per_miss, 200);
    assert_eq!(c.theme, "default");
    assert_eq!(c.app_name, "IrohaType");
    assert_eq!(c.stage_w, 88);
    assert_eq!(c.stage_h, 28);
    assert!(c.fixed_chars);
    assert_eq!(c.target_chars, 400);
    assert_eq!(AppConfig::path(), "data/config.json");
    assert_eq!(ScoreBook::path(), "data/scores.json");
}
