use typewell::romaji::{RomajiRules, RomajiMatcher, InputResult};

fn rules() -> RomajiRules {
    RomajiRules::standard()
}

#[test]
fn example_roma_is_shortest() {
    let r = rules();
    let m = RomajiMatcher::new("し", &vec!["shi".to_string()], &r);
    assert_eq!(m.example_roma(), "si");
}

#[test]
fn default_kept_until_two_char_divergence() {
    // A one-character divergence from the default spelling must not switch
    // the displayed spelling yet.
    let r = rules();
    let mut m = RomajiMatcher::new("ちち", &vec!["chichi".to_string()], &r);
    assert_eq!(m.display_with_default("chichi"), "chichi");
    m.input_char('t');
    assert_eq!(m.display_with_default("chichi"), "chichi");
    m.input_char('i');
    assert_eq!(m.display_with_default("chichi"), "titi");
}

#[test]
fn default_kept_while_prefix_matches() {
    let r = rules();
    let mut m = RomajiMatcher::new("しし", &vec!["shishi".to_string()], &r);
    m.input_char('s');
    m.input_char('h');
    assert_eq!(m.display_with_default("shishi"), "shishi");
}

#[test]
fn sticky_choice_is_stable() {
    let r = rules();
    let mut m = RomajiMatcher::new("しつじ", &vec!["shitsuji".to_string()], &r);
    m.input_char('s');
    m.input_char('i');
    let first = m.display_candidate();
    m.input_char('t');
    let second = m.display_candidate();
    // the sticky candidate still matches, so the display does not flicker
    assert!(second.starts_with("sit"));
    assert!(first.starts_with("si"));
    assert!(second.starts_with(&first[0..2]));
}

#[test]
fn miss_leaves_prefix_and_recovery_completes() {
    // A rejected character leaves the typed prefix unchanged, and the
    // word still completes from the same state.
    let r = rules();
    let mut m = RomajiMatcher::new("し", &vec!["shi".to_string()], &r);
    assert!(matches!(m.input_char('x'), InputResult::Miss));
    assert_eq!(m.miss_count, 1);
    let res: Vec<InputResult> = "shi".chars().map(|c| m.input_char(c)).collect();
    assert!(matches!(res.last(), Some(InputResult::Complete)));
    assert_eq!(m.miss_count, 1);
}

#[test]
fn prefix_of_candidate_is_correct() {
    // A strict, non-final prefix of a candidate judges Correct.
    let r = rules();
    let mut m = RomajiMatcher::new("し", &vec!["shi".to_string()], &r);
    assert!(matches!(m.input_char('s'), InputResult::Correct));
    assert!(matches!(m.input_char('h'), InputResult::Correct));
    assert!(matches!(m.input_char('i'), InputResult::Complete));
}

#[test]
fn noop_for_non_ascii() {
    let r = rules();
    let mut m = RomajiMatcher::new("し", &vec!["shi".to_string()], &r);
    assert!(matches!(m.input_char('し'), InputResult::Noop));
    assert_eq!(m.miss_count, 0);
    assert_eq!(m.typed.len(), 0);
}

#[test]
fn fu_hu_single_occurrence_also_accepted() {
    // Each safe occurrence may be rewritten alone, not only all at once.
    let r = rules();
    let mut m = RomajiMatcher::new("ふふ", &vec!["fufu".to_string()], &r);
    let res: Vec<InputResult> = "hufu".chars().map(|c| m.input_char(c)).collect();
    assert!(matches!(res.last(), Some(InputResult::Complete)));
    let mut m2 = RomajiMatcher::new("ふふ", &vec!["fufu".to_string()], &r);
    let res2: Vec<InputResult> = "fuhu".chars().map(|c| m2.input_char(c)).collect();
    assert!(matches!(res2.last(), Some(InputResult::Complete)));
}

#[test]
fn ffu_cluster_is_not_broken() {
    // Inside a doubled-consonant cluster only the whole ffu/hhu pair swaps.
    let r = rules();
    let mut m = RomajiMatcher::new("ラッフル", &vec!["raffuru".to_string()], &r);
    let res: Vec<InputResult> = "rafhur".chars().map(|c| m.input_char(c)).collect();
    assert!(matches!(res.last(), Some(InputResult::Miss)));
    let mut m2 = RomajiMatcher::new("ラッフル", &vec!["raffuru".to_string()], &r);
    let res2: Vec<InputResult> = "rahhuru".chars().map(|c| m2.input_char(c)).collect();
    assert!(matches!(res2.last(), Some(InputResult::Complete)));
}
