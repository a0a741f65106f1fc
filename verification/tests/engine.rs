use ascii_engine::jobs::JobRegistry;
use ascii_engine::text::{best_resolution, build_convert_result, character_levels, grid_columns, values_to_text};

#[test]
fn conversion_result_text_is_row_major() {
    let values = ["a", "b", "c", "d", "e", "f"]
        .into_iter()
        .map(String::from)
        .collect::<Vec<_>>();
    assert_eq!(values_to_text(&values, 3), "abc\ndef");
}

#[test]
fn settings_resolution_is_bounded() {
    assert_eq!(best_resolution(1), 64);
    assert_eq!(best_resolution(4_000), 180);
    assert_eq!(best_resolution(800), 100);
}

#[test]
fn cancels_previous_version() {
    let mut jobs = JobRegistry::new();
    let first = jobs.begin("conversion");
    assert!(jobs.is_current("conversion", first));
    let second = jobs.begin("conversion");
    assert!(!jobs.is_current("conversion", first));
    assert!(jobs.is_current("conversion", second));
}

#[test]
fn short_last_row_is_kept() {
    let values = ["a", "b", "c", "d", "e"].into_iter().map(String::from).collect::<Vec<_>>();
    assert_eq!(values_to_text(&values, 2), "ab\ncd\ne");
}

#[test]
fn zero_columns_means_one_per_row() {
    let values = ["x", "y"].into_iter().map(String::from).collect::<Vec<_>>();
    assert_eq!(values_to_text(&values, 0), "x\ny");
}

#[test]
fn no_cells_give_empty_text() {
    let values: Vec<String> = Vec::new();
    assert_eq!(values_to_text(&values, 4), "");
}

#[test]
fn multi_character_cells_are_joined() {
    let values = ["ab", "c", "", "d"].into_iter().map(String::from).collect::<Vec<_>>();
    assert_eq!(values_to_text(&values, 2), "abc\nd");
}

#[test]
fn resolution_is_an_eighth_of_the_width_inside_bounds() {
    assert_eq!(best_resolution(0), 64);
    assert_eq!(best_resolution(519), 64);
    assert_eq!(best_resolution(520), 65);
    assert_eq!(best_resolution(1447), 180);
    assert_eq!(best_resolution(u32::MAX), 180);
}

#[test]
fn grid_has_at_least_eight_columns() {
    assert_eq!(grid_columns(0), 8);
    assert_eq!(grid_columns(7), 8);
    assert_eq!(grid_columns(8), 8);
    assert_eq!(grid_columns(120), 120);
}

#[test]
fn empty_character_set_is_refused() {
    assert_eq!(character_levels(""), Err("Набор символов не может быть пустым".to_string()));
    assert_eq!(character_levels(" .:#"), Ok(4));
    assert_eq!(character_levels("░▒▓█"), Ok(4));
}

#[test]
fn result_maps_levels_to_characters() {
    let result = build_convert_result(" .:#", 2, 2, &vec![0, 3, 2, 1]);
    assert_eq!(result.columns, 2);
    assert_eq!(result.rows, 2);
    assert_eq!(result.values, vec![" ", "#", ":", "."]);
    assert_eq!(result.text, " #\n:.");
}

#[test]
fn result_handles_multibyte_characters() {
    let result = build_convert_result("░▓", 3, 1, &vec![1, 0, 1]);
    assert_eq!(result.values, vec!["▓", "░", "▓"]);
    assert_eq!(result.text, "▓░▓");
}

#[test]
fn versions_of_other_kinds_are_untouched() {
    let mut jobs = JobRegistry::new();
    let conversion = jobs.begin("conversion");
    let search = jobs.begin("settings_search");
    assert_eq!(conversion, 1);
    assert_eq!(search, 1);
    jobs.cancel("settings_search");
    assert!(jobs.is_current("conversion", conversion));
    assert!(!jobs.is_current("settings_search", search));
    assert_eq!(jobs.begin("settings_search"), 3);
}

#[test]
fn unknown_kind_has_no_current_version() {
    let jobs = JobRegistry::new();
    assert!(!jobs.is_current("conversion", 0));
    assert!(!jobs.is_current("conversion", 1));
}

fn shareable<T: Send + Sync>(_: &T) -> bool {
    true
}

#[test]
fn registry_can_be_shared_between_threads() {
    let jobs = std::sync::Mutex::new(JobRegistry::new());
    assert!(shareable(&jobs));
    let id = jobs.lock().unwrap().begin("conversion");
    assert!(jobs.lock().unwrap().is_current("conversion", id));
}
