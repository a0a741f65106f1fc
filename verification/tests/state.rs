use ascii_engine::state::{
    clear_history_of, default_app_state, empty_app_state, history_paths, kept_history,
    parse_app_state, retain_history, state_text, AppState,
};
use serde_json::Value;

fn value(text: &str) -> Value {
    serde_json::from_str(text).unwrap()
}

const SAVED: &str = r#"{
    "customCharacters": ["@#", " .:"],
    "history": [
        {"path": "/images/a.png", "columns": 80},
        {"title": "no path"},
        {"path": 7},
        {"path": "/images/b.png"}
    ],
    "theme": "dark"
}"#;

#[test]
fn first_start_has_empty_history_and_character_sets() {
    let state = default_app_state().into_value();
    assert_eq!(state, value(r#"{"history": [], "customCharacters": []}"#));
    assert_eq!(empty_app_state().into_value(), value("{}"));
}

#[test]
fn saved_state_parses_or_reports_error() {
    let state = parse_app_state(SAVED).unwrap();
    assert_eq!(state.into_value(), value(SAVED));
    assert!(parse_app_state("{\"history\": [").is_err());
    assert!(parse_app_state("").is_err());
}

#[test]
fn history_paths_follow_items() {
    let state = parse_app_state(SAVED).unwrap();
    assert_eq!(
        history_paths(&state),
        Some(vec![Some("/images/a.png".to_string()), None, None, Some("/images/b.png".to_string())])
    );
    assert_eq!(history_paths(&parse_app_state(r#"{"history": 3}"#).unwrap()), None);
    assert_eq!(history_paths(&parse_app_state("[1, 2]").unwrap()), None);
    assert_eq!(history_paths(&parse_app_state(r#"{"history": []}"#).unwrap()), Some(vec![]));
}

#[test]
fn kept_history_lists_existing_paths_in_order() {
    let paths = vec![Some("a".to_string()), None, Some("c".to_string()), Some("d".to_string())];
    assert_eq!(kept_history(&paths, &vec![true, true, false, true]), vec![0, 3]);
    assert_eq!(kept_history(&paths, &vec![false, false, false, false]), Vec::<usize>::new());
    assert_eq!(kept_history(&vec![], &vec![]), Vec::<usize>::new());
}

#[test]
fn retained_history_keeps_other_fields() {
    let mut state = parse_app_state(SAVED).unwrap();
    retain_history(&mut state, &vec![0, 3]);
    let expected = value(
        r#"{
        "customCharacters": ["@#", " .:"],
        "history": [
            {"path": "/images/a.png", "columns": 80},
            {"path": "/images/b.png"}
        ],
        "theme": "dark"
    }"#,
    );
    assert_eq!(state.into_value(), expected);
}

#[test]
fn state_without_history_array_is_kept() {
    let mut state = parse_app_state(r#"{"history": "none", "x": 1}"#).unwrap();
    retain_history(&mut state, &vec![]);
    assert_eq!(state.into_value(), value(r#"{"history": "none", "x": 1}"#));
}

#[test]
fn clearing_history_keeps_other_fields() {
    let mut state = parse_app_state(SAVED).unwrap();
    assert!(clear_history_of(&mut state));
    assert_eq!(
        state.into_value(),
        value(r#"{"customCharacters": ["@#", " .:"], "history": [], "theme": "dark"}"#)
    );
    let mut null = parse_app_state("null").unwrap();
    assert!(clear_history_of(&mut null));
    assert_eq!(null.into_value(), value(r#"{"history": []}"#));
    let mut array = parse_app_state("[1]").unwrap();
    assert!(!clear_history_of(&mut array));
    assert_eq!(array.into_value(), value("[1]"));
}

#[test]
fn saved_text_is_pretty_json() {
    let state = AppState::from_value(value(r#"{"history": [], "customCharacters": ["ab"]}"#));
    let text = state_text(&state).unwrap();
    assert_eq!(text, "{\n  \"customCharacters\": [\n    \"ab\"\n  ],\n  \"history\": []\n}");
    assert_eq!(parse_app_state(&text).unwrap().into_value(), state.into_value());
}
