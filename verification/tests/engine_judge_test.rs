use typewell::game::{Game, GameConfig, KeyPress, WordEntry};
use typewell::romaji::RomajiRules;

fn key(c: char) -> KeyPress {
    KeyPress::Char(c)
}

#[test]
fn simple_game_flow() {
    let words = vec![
        WordEntry { jp: "あい".into(), romas: vec!["ai".into()] },
        WordEntry { jp: "しお".into(), romas: vec!["shio".into()] },
    ];
    let mut g = Game::new_with_rules(
        GameConfig {
            time_limit_ms: 10_000,
            max_words: 10,
            loss_ms_per_miss: 0,
            fixed_chars: false,
            target_chars: 0,
        },
        words,
        RomajiRules::standard(),
    );
    g.start();
    let mut now = 0u64;
    for ch in "ai".chars() {
        now += 100;
        g.handle_key(key(ch), now);
    }
    for ch in "sio".chars() {
        now += 100;
        g.handle_key(key(ch), now);
    }
    assert!(g.finish_record("t0".to_string()).splits.len() >= 1);
}
