use flerp::app_state::{AppState, KeyInput};

fn type_keys(state: &mut AppState, keys: &str) {
    for c in keys.chars() {
        assert!(state.handle_key(KeyInput::Char(c)));
    }
}

#[test]
fn default_state_values() {
    let s = AppState::default();
    assert_eq!(s.file_content, "");
    assert_eq!(s.file_name, "No file loaded");
    assert_eq!(s.search_query, "");
    assert!(s.search_results.is_empty());
    assert!(s.keywords.is_empty());
    assert_eq!(s.structural_analysis.lines, 0);
    assert_eq!(s.structural_analysis.stanzas, 0);
    assert_eq!(s.current_tab, 0);
    assert!(!s.search_mode);
    assert!(s.case_sensitive);
    assert_eq!(s.selected_result, 0);
}

#[test]
fn quit_from_normal_mode_stops() {
    let mut s = AppState::default();
    assert!(!s.handle_key(KeyInput::Char('q')));
    // Regardless of the current tab.
    let mut s2 = AppState::default();
    assert!(s2.handle_key(KeyInput::Tab));
    assert!(s2.handle_key(KeyInput::Tab));
    assert!(!s2.handle_key(KeyInput::Char('q')));
}

#[test]
fn escape_exits_search_or_stops() {
    let mut s = AppState::default();
    assert!(s.handle_key(KeyInput::Char('/')));
    assert!(s.search_mode);
    assert!(s.handle_key(KeyInput::Esc));
    assert!(!s.search_mode);
    assert!(!s.handle_key(KeyInput::Esc));
}

#[test]
fn escape_keeps_query_and_results() {
    let mut s = AppState::default();
    s.load_content("apple\nbanana".to_string(), "fruit.txt".to_string());
    assert!(s.handle_key(KeyInput::Char('/')));
    type_keys(&mut s, "an");
    assert!(s.handle_key(KeyInput::Esc));
    assert_eq!(s.search_query, "an");
    assert_eq!(s.search_results, vec!["banana".to_string()]);
}

#[test]
fn search_entry_scenario() {
    let mut s = AppState::default();
    assert!(s.handle_key(KeyInput::Char('/')));
    type_keys(&mut s, "ab");
    assert!(s.handle_key(KeyInput::Backspace));
    assert!(s.handle_key(KeyInput::Enter));
    assert!(!s.search_mode);
    assert_eq!(s.search_query, "a");
}

#[test]
fn query_characters_go_into_the_query_in_search_mode() {
    let mut s = AppState::default();
    assert!(s.handle_key(KeyInput::Char('/')));
    // Even the command characters are plain input while searching.
    type_keys(&mut s, "q/c");
    assert!(s.search_mode);
    assert_eq!(s.search_query, "q/c");
}

#[test]
fn backspace_on_empty_query_is_a_no_op() {
    let mut s = AppState::default();
    assert!(s.handle_key(KeyInput::Char('/')));
    assert!(s.handle_key(KeyInput::Backspace));
    assert_eq!(s.search_query, "");
}

#[test]
fn tab_cycles_through_four_tabs() {
    let mut s = AppState::default();
    let mut seen = Vec::new();
    for _ in 0..4 {
        assert!(s.handle_key(KeyInput::Tab));
        seen.push(s.current_tab);
    }
    assert_eq!(seen, vec![1, 2, 3, 0]);
}

#[test]
fn tab_in_search_mode_is_a_no_op() {
    let mut s = AppState::default();
    assert!(s.handle_key(KeyInput::Char('/')));
    assert!(s.handle_key(KeyInput::Tab));
    assert_eq!(s.current_tab, 0);
    assert!(s.search_mode);
}

#[test]
fn unknown_keys_change_nothing() {
    let mut s = AppState::default();
    assert!(s.handle_key(KeyInput::Other));
    assert!(s.handle_key(KeyInput::Char('x')));
    assert!(s.handle_key(KeyInput::Up));
    assert!(s.handle_key(KeyInput::Down));
    assert_eq!(s.current_tab, 0);
    assert!(!s.search_mode);
    assert_eq!(s.search_query, "");
}

#[test]
fn case_toggle_recomputes_results() {
    let mut s = AppState::default();
    s.load_content("hello world".to_string(), "t.txt".to_string());
    assert!(s.handle_key(KeyInput::Char('/')));
    type_keys(&mut s, "HELLO");
    assert!(s.handle_key(KeyInput::Enter));
    assert!(s.case_sensitive);
    assert!(s.search_results.is_empty());
    assert!(s.handle_key(KeyInput::Char('c')));
    assert!(!s.case_sensitive);
    assert_eq!(s.search_results, vec!["hello world".to_string()]);
    assert!(s.handle_key(KeyInput::Char('c')));
    assert!(s.case_sensitive);
    assert!(s.search_results.is_empty());
}

#[test]
fn update_search_is_idempotent() {
    let mut s = AppState::default();
    s.load_content("cat\ncatalog\ndog".to_string(), "t.txt".to_string());
    assert!(s.handle_key(KeyInput::Char('/')));
    type_keys(&mut s, "cat");
    assert!(s.handle_key(KeyInput::Enter));
    let once = s.search_results.clone();
    s.update_search();
    assert_eq!(s.search_results, once);
    s.update_search();
    assert_eq!(s.search_results, once);
}

#[test]
fn selection_moves_and_clamps_on_search_tab() {
    let mut s = AppState::default();
    s.load_content("cat\ncatalog\ncatch".to_string(), "t.txt".to_string());
    assert!(s.handle_key(KeyInput::Char('/')));
    type_keys(&mut s, "cat");
    assert!(s.handle_key(KeyInput::Enter));
    assert_eq!(s.search_results.len(), 3);
    assert_eq!(s.selected_result, 0);
    // Selection only moves on the search tab (index 2).
    assert!(s.handle_key(KeyInput::Down));
    assert_eq!(s.selected_result, 0);
    assert!(s.handle_key(KeyInput::Tab));
    assert!(s.handle_key(KeyInput::Tab));
    assert_eq!(s.current_tab, 2);
    assert!(s.handle_key(KeyInput::Up));
    assert_eq!(s.selected_result, 0);
    assert!(s.handle_key(KeyInput::Down));
    assert_eq!(s.selected_result, 1);
    assert!(s.handle_key(KeyInput::Down));
    assert_eq!(s.selected_result, 2);
    assert!(s.handle_key(KeyInput::Down));
    assert_eq!(s.selected_result, 2);
    assert!(s.handle_key(KeyInput::Up));
    assert!(s.handle_key(KeyInput::Up));
    assert!(s.handle_key(KeyInput::Up));
    assert_eq!(s.selected_result, 0);
}

#[test]
fn load_file_scenario() {
    let mut s = AppState::default();
    s.load_content("cat\n\ndog".to_string(), "pets.txt".to_string());
    assert_eq!(s.file_name, "pets.txt");
    assert_eq!(s.structural_analysis.lines, 3);
    assert_eq!(s.structural_analysis.stanzas, 2);
    assert_eq!(s.structural_analysis.words, 2);
    assert_eq!(s.structural_analysis.characters, 8);
    assert_eq!(
        s.keywords,
        vec![("cat".to_string(), 1), ("dog".to_string(), 1)]
    );
    assert!(s.search_results.is_empty());
}

#[test]
fn load_recomputes_existing_search() {
    let mut s = AppState::default();
    assert!(s.handle_key(KeyInput::Char('/')));
    type_keys(&mut s, "dog");
    assert!(s.handle_key(KeyInput::Enter));
    assert!(s.search_results.is_empty());
    s.load_content("dog one\ncat\ndog two".to_string(), "t.txt".to_string());
    assert_eq!(
        s.search_results,
        vec!["dog one".to_string(), "dog two".to_string()]
    );
    assert_eq!(s.selected_result, 0);
}
