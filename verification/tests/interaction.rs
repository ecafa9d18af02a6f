//! Tests of the selection controller and the focus state machine:
//! cursor movement and clamping, expand/collapse, click mapping, and
//! key dispatch in every mode.

use mqttui::controller::{Action, App, ElementInFocus, JsonMove, KeyInput, Refresh};
use mqttui::overview::{CursorMove, TopicOverview};
use mqttui::tree::MqttHistory;

fn visible4() -> Vec<String> {
    vec![
        "a".to_string(),
        "b".to_string(),
        "c".to_string(),
        "d".to_string(),
    ]
}

#[test]
fn absolute_max_selects_last() {
    let mut overview = TopicOverview::new();
    overview.change_selected(&visible4(), CursorMove::Absolute(usize::MAX));
    assert_eq!(overview.get_selected().as_deref(), Some("d"));
}

#[test]
fn one_down_without_selection_selects_first() {
    let mut overview = TopicOverview::new();
    let different = overview.change_selected(&visible4(), CursorMove::OneDown);
    assert!(different);
    assert_eq!(overview.get_selected().as_deref(), Some("a"));
}

#[test]
fn one_up_and_down_step_by_one() {
    let mut overview = TopicOverview::new();
    overview.change_selected(&visible4(), CursorMove::Absolute(2));
    assert_eq!(overview.get_selected().as_deref(), Some("c"));
    overview.change_selected(&visible4(), CursorMove::OneUp);
    assert_eq!(overview.get_selected().as_deref(), Some("b"));
    let same = overview.change_selected(&visible4(), CursorMove::OneDown);
    assert!(same);
    assert_eq!(overview.get_selected().as_deref(), Some("c"));
    let unchanged = overview.change_selected(&visible4(), CursorMove::Absolute(2));
    assert!(!unchanged);
}

#[test]
fn page_moves_use_half_height() {
    let mut overview = TopicOverview::new();
    overview.set_view(0, 0, 40, 4, 0);
    overview.change_selected(&visible4(), CursorMove::Absolute(0));
    overview.change_selected(&visible4(), CursorMove::PageDown);
    assert_eq!(overview.get_selected().as_deref(), Some("c"));
    overview.change_selected(&visible4(), CursorMove::PageUp);
    assert_eq!(overview.get_selected().as_deref(), Some("a"));
}

#[test]
fn empty_visible_clears_selection() {
    let mut overview = TopicOverview::new();
    overview.change_selected(&visible4(), CursorMove::Absolute(1));
    assert!(overview.get_selected().is_some());
    let empty: Vec<String> = Vec::new();
    overview.change_selected(&empty, CursorMove::OneDown);
    assert!(overview.get_selected().is_none());
}

#[test]
fn close_at_root_is_idempotent() {
    let mut overview = TopicOverview::new();
    overview.change_selected(&visible4(), CursorMove::Absolute(0));
    assert_eq!(overview.get_selected().as_deref(), Some("a"));
    assert!(overview.get_opened().is_empty());
    overview.close();
    assert!(overview.get_selected().is_none());
    assert!(overview.get_opened().is_empty());
    overview.close();
    assert!(overview.get_selected().is_none());
    assert!(overview.get_opened().is_empty());
}

#[test]
fn close_walks_up_to_the_parent() {
    let mut overview = TopicOverview::new();
    let visible = vec!["foo/bar/baz".to_string()];
    overview.change_selected(&visible, CursorMove::Absolute(0));
    overview.close();
    assert_eq!(overview.get_selected().as_deref(), Some("foo/bar"));
    overview.close();
    assert_eq!(overview.get_selected().as_deref(), Some("foo"));
}

#[test]
fn close_collapses_before_walking_up() {
    let mut overview = TopicOverview::new();
    let visible = vec!["foo/bar".to_string()];
    overview.change_selected(&visible, CursorMove::Absolute(0));
    overview.open();
    assert_eq!(overview.get_opened(), &["foo/bar"]);
    overview.close();
    // the first close only collapses; the selection stays
    assert_eq!(overview.get_selected().as_deref(), Some("foo/bar"));
    assert!(overview.get_opened().is_empty());
    overview.close();
    assert_eq!(overview.get_selected().as_deref(), Some("foo"));
}

#[test]
fn toggle_flips_expansion() {
    let mut overview = TopicOverview::new();
    overview.change_selected(&visible4(), CursorMove::Absolute(0));
    overview.toggle();
    assert_eq!(overview.get_opened(), &["a"]);
    overview.toggle();
    assert!(overview.get_opened().is_empty());
}

#[test]
fn set_opened_merges_and_records_query() {
    let mut overview = TopicOverview::new();
    overview.change_selected(&visible4(), CursorMove::Absolute(0));
    overview.toggle();
    overview.set_opened(&vec!["x".to_string(), "a".to_string()]);
    let opened = overview.get_opened();
    assert!(opened.contains(&"a".to_string()));
    assert!(opened.contains(&"x".to_string()));
    assert_eq!(opened.len(), 2);
    assert_eq!(
        overview.get_query_items(),
        &Some(vec!["x".to_string(), "a".to_string()])
    );
}

#[test]
fn click_maps_rows_through_offset() {
    let mut overview = TopicOverview::new();
    overview.set_view(0, 0, 40, 10, 2);
    // row 0 is the border, row 1 is list row 0, plus scroll offset 2
    assert_eq!(overview.index_of_click(5, 3), Some(4));
    assert_eq!(overview.index_of_click(5, 0), None);
    assert_eq!(overview.index_of_click(5, 9), None);
    assert_eq!(overview.index_of_click(45, 3), None);
}

#[test]
fn quit_keys_quit_from_both_panes() {
    let history = MqttHistory::example();
    let mut app = App::new();
    let (refresh, _) = app.on_key(&history, KeyInput::Character('q'), "");
    assert!(matches!(refresh, Refresh::Quit));
    app.focus = ElementInFocus::JsonPayload;
    let (refresh, _) = app.on_key(&history, KeyInput::CtrlCharacter('c'), "");
    assert!(matches!(refresh, Refresh::Quit));
}

#[test]
fn movement_keys_drive_the_cursor() {
    let history = MqttHistory::example();
    let mut app = App::new();
    let (refresh, _) = app.on_key(&history, KeyInput::Down, "");
    assert!(matches!(refresh, Refresh::Update));
    assert_eq!(app.topic_overview.get_selected().as_deref(), Some("foo"));
    app.on_key(&history, KeyInput::End, "");
    assert_eq!(app.topic_overview.get_selected().as_deref(), Some("test"));
    app.on_key(&history, KeyInput::Home, "");
    assert_eq!(app.topic_overview.get_selected().as_deref(), Some("foo"));
}

#[test]
fn expand_reveals_children_for_the_cursor() {
    let history = MqttHistory::example();
    let mut app = App::new();
    app.on_key(&history, KeyInput::Down, "");
    app.on_key(&history, KeyInput::Enter, "");
    assert_eq!(app.topic_overview.get_opened(), &["foo"]);
    app.on_key(&history, KeyInput::Down, "");
    assert_eq!(
        app.topic_overview.get_selected().as_deref(),
        Some("foo/bar")
    );
}

#[test]
fn unknown_key_skips_redraw() {
    let history = MqttHistory::example();
    let mut app = App::new();
    let (refresh, action) = app.on_key(&history, KeyInput::Other, "");
    assert!(matches!(refresh, Refresh::Skip));
    assert!(matches!(action, Action::Idle));
}

#[test]
fn tab_enters_json_pane_only_on_structured_payload() {
    let mut history = MqttHistory::example();
    let mut app = App::new();
    // "test" holds plain text: Tab must not change focus
    app.on_key(&history, KeyInput::End, "");
    app.on_key(&history, KeyInput::Tab, "");
    assert!(matches!(app.focus, ElementInFocus::TopicOverview));
    // after a structured payload arrives, Tab switches
    history.add(
        "test",
        mqttui::payload::HistoryEntry::new(b"[1,2]".to_vec(), 9),
    );
    app.on_key(&history, KeyInput::Tab, "");
    assert!(matches!(app.focus, ElementInFocus::JsonPayload));
    // and Tab leaves again
    let (_, action) = app.on_key(&history, KeyInput::Enter, "");
    assert!(matches!(action, Action::Json(JsonMove::ToggleSelected)));
    app.on_key(&history, KeyInput::Tab, "");
    assert!(matches!(app.focus, ElementInFocus::TopicOverview));
}

#[test]
fn delete_opens_popup_and_any_key_aborts() {
    let history = MqttHistory::example();
    let mut app = App::new();
    app.on_key(&history, KeyInput::Down, "");
    app.on_key(&history, KeyInput::Delete, "");
    match &app.focus {
        ElementInFocus::CleanRetainedPopup(t) => assert_eq!(t, "foo"),
        _ => panic!("delete with a selection must open the popup"),
    }
    // an unrelated key aborts without any deletion
    let (refresh, action) = app.on_key(&history, KeyInput::Up, "");
    assert!(matches!(refresh, Refresh::Update));
    assert!(matches!(action, Action::Idle));
    assert!(matches!(app.focus, ElementInFocus::TopicOverview));
}

#[test]
fn popup_confirm_requests_cleaning() {
    let history = MqttHistory::example();
    let mut app = App::new();
    app.on_key(&history, KeyInput::Down, "");
    app.on_key(&history, KeyInput::Backspace, "");
    let (_, action) = app.on_key(&history, KeyInput::Enter, "");
    match action {
        Action::CleanBelow(t) => assert_eq!(t, "foo"),
        _ => panic!("confirming the popup must request the cleaning"),
    }
    assert!(matches!(app.focus, ElementInFocus::TopicOverview));
}

#[test]
fn delete_without_selection_skips() {
    let history = MqttHistory::example();
    let mut app = App::new();
    let (refresh, _) = app.on_key(&history, KeyInput::Delete, "");
    assert!(matches!(refresh, Refresh::Skip));
    assert!(matches!(app.focus, ElementInFocus::TopicOverview));
}

#[test]
fn search_round_trip_through_the_controller() {
    let history = MqttHistory::example();
    let mut app = App::new();
    app.on_key(&history, KeyInput::Character('/'), "");
    assert!(matches!(app.focus, ElementInFocus::SearchMode));
    let (refresh, action) = app.on_key(&history, KeyInput::Character('e'), "e");
    assert!(matches!(refresh, Refresh::Update));
    assert!(matches!(action, Action::SearchInput));
    let (_, action) = app.on_key(&history, KeyInput::Enter, "es");
    assert!(matches!(action, Action::Idle));
    assert!(matches!(app.focus, ElementInFocus::TopicOverview));
    let opened = app.topic_overview.get_opened();
    assert!(opened.contains(&"test".to_string()));
    assert!(opened.contains(&"foo/test".to_string()));
    assert_eq!(
        app.topic_overview.get_query_items(),
        &Some(vec!["test".to_string(), "foo/test".to_string()])
    );
}

#[test]
fn search_escape_returns_to_overview() {
    let history = MqttHistory::example();
    let mut app = App::new();
    app.on_key(&history, KeyInput::Character('/'), "");
    let (refresh, _) = app.on_key(&history, KeyInput::Escape, "");
    assert!(matches!(refresh, Refresh::Update));
    assert!(matches!(app.focus, ElementInFocus::TopicOverview));
}

#[test]
fn click_selects_then_toggles() {
    let history = MqttHistory::example();
    let mut app = App::new();
    app.topic_overview.set_view(0, 0, 40, 10, 0);
    // row 1 is the first visible topic: "foo"
    let (refresh, _) = app.on_click(&history, 3, 1);
    assert!(matches!(refresh, Refresh::Update));
    assert_eq!(app.topic_overview.get_selected().as_deref(), Some("foo"));
    assert!(app.topic_overview.get_opened().is_empty());
    // a second click on the same row toggles it open
    app.on_click(&history, 3, 1);
    assert_eq!(app.topic_overview.get_opened(), &["foo"]);
    // a click outside the pane is a no-op
    let (refresh, _) = app.on_click(&history, 60, 1);
    assert!(matches!(refresh, Refresh::Skip));
}

#[test]
fn scroll_events_move_one_step() {
    let history = MqttHistory::example();
    let mut app = App::new();
    let (refresh, _) = app.on_down(&history);
    assert!(matches!(refresh, Refresh::Update));
    assert_eq!(app.topic_overview.get_selected().as_deref(), Some("foo"));
    app.on_down(&history);
    assert_eq!(app.topic_overview.get_selected().as_deref(), Some("test"));
    app.on_up(&history);
    assert_eq!(app.topic_overview.get_selected().as_deref(), Some("foo"));
    app.focus = ElementInFocus::JsonPayload;
    let (_, action) = app.on_down(&history);
    assert!(matches!(action, Action::Json(JsonMove::MoveDown)));
}
