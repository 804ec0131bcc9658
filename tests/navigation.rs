use disk_usage_tui::app::App;
use disk_usage_tui::event::{handle_key_event, Action, KeyCode};
use disk_usage_tui::order::SortBy;
use disk_usage_tui::paths::bytes_le;
use disk_usage_tui::sizes::Entry;
use disk_usage_tui::tree::{build_tree, DirEntryInfo};

fn path(s: &str) -> Vec<Vec<u8>> {
    s.split('/').map(|c| c.as_bytes().to_vec()).collect()
}

fn dir(s: &str) -> Entry {
    Entry { path: path(s), size: 0, is_dir: true }
}

fn file(s: &str, size: u64) -> Entry {
    Entry { path: path(s), size, is_dir: false }
}

fn name(n: &DirEntryInfo) -> String {
    String::from_utf8(n.path.last().unwrap().clone()).unwrap()
}

fn rows(app: &App) -> Vec<(String, u64)> {
    let cur = app.current_node();
    app.order.iter().map(|&k| (name(&cur.children[k]), cur.children[k].size)).collect()
}

fn row_names(app: &App) -> Vec<String> {
    rows(app).into_iter().map(|r| r.0).collect()
}

fn scenario_a() -> App {
    App::new(build_tree(
        &path("r"),
        vec![dir("r"), dir("r/dirA"), file("r/dirA/f1", 100), file("r/dirA/f2", 200), file("r/fileB", 50)],
    ))
}

fn mixed() -> App {
    App::new(build_tree(
        &path("r"),
        vec![
            dir("r"),
            file("r/b", 30),
            file("r/a", 10),
            dir("r/dirC"),
            file("r/c", 20),
            dir("r/d"),
            file("r/d/x", 5),
        ],
    ))
}

#[test]
fn scenario_a_navigation() {
    let mut app = scenario_a();
    assert_eq!(app.current_node().size, 350);
    assert_eq!(app.sort_by, SortBy::Size);
    assert_eq!(rows(&app), vec![("dirA".to_string(), 300), ("fileB".to_string(), 50)]);
    assert_eq!(app.selected, 0);
    assert!(app.navigate_into());
    assert_eq!(app.stack.len(), 1);
    assert_eq!(app.selected, 0);
    assert_eq!(name(app.current_node()), "dirA");
    assert_eq!(rows(&app), vec![("f2".to_string(), 200), ("f1".to_string(), 100)]);
}

#[test]
fn scenario_b_empty_directory_not_entered() {
    let mut app = mixed();
    let pos = row_names(&app).iter().position(|n| n == "dirC").unwrap();
    app.move_selection(pos as isize);
    assert_eq!(app.selected, pos);
    let before_rows = row_names(&app);
    assert!(!app.navigate_into());
    assert_eq!(app.stack.len(), 0);
    assert_eq!(app.selected, pos);
    assert_eq!(row_names(&app), before_rows);
}

#[test]
fn navigate_into_file_is_noop() {
    let mut app = scenario_a();
    app.move_selection(1);
    assert_eq!(row_names(&app)[app.selected], "fileB");
    assert!(!app.navigate_into());
    assert_eq!(app.stack.len(), 0);
    assert_eq!(app.selected, 1);
}

#[test]
fn navigate_out_at_root_is_noop() {
    let mut app = scenario_a();
    app.move_selection(1);
    assert!(!app.navigate_out());
    assert_eq!(app.stack.len(), 0);
    assert_eq!(app.selected, 1);
}

#[test]
fn navigate_out_returns_to_parent() {
    let mut app = scenario_a();
    assert!(app.navigate_into());
    app.move_selection(1);
    assert!(app.navigate_out());
    assert_eq!(app.stack.len(), 0);
    assert_eq!(app.selected, 0);
    assert_eq!(app.current_node().path, path("r"));
    assert_eq!(row_names(&app), vec!["dirA", "fileB"]);
}

#[test]
fn move_selection_wraps() {
    let mut app = mixed();
    let n = app.current_node().children.len();
    assert_eq!(n, 5);
    app.move_selection(-1);
    assert_eq!(app.selected, n - 1);
    app.move_selection(1);
    assert_eq!(app.selected, 0);
    app.move_selection(13);
    assert_eq!(app.selected, 3);
    app.move_selection(-8);
    assert_eq!(app.selected, 0);
    app.move_selection(isize::MIN);
    assert_eq!(app.selected, 2);
}

#[test]
fn move_selection_in_empty_directory_is_noop() {
    let mut app = App::new(build_tree(&path("r"), vec![dir("r")]));
    app.move_selection(1);
    assert_eq!(app.selected, 0);
    app.move_selection(-1);
    assert_eq!(app.selected, 0);
}

#[test]
fn toggle_sort_orders_by_name_then_size() {
    let mut app = mixed();
    assert_eq!(row_names(&app), vec!["b", "c", "a", "d", "dirC"]);
    assert_eq!(rows(&app).iter().map(|r| r.1).collect::<Vec<_>>(), vec![30, 20, 10, 5, 0]);
    app.toggle_sort();
    assert_eq!(app.sort_by, SortBy::Name);
    assert_eq!(row_names(&app), vec!["a", "b", "c", "d", "dirC"]);
    app.toggle_sort();
    assert_eq!(app.sort_by, SortBy::Size);
    assert_eq!(row_names(&app), vec!["b", "c", "a", "d", "dirC"]);
}

#[test]
fn toggle_sort_twice_restores_name_order() {
    let mut app = mixed();
    app.toggle_sort();
    let by_name = app.order.clone();
    app.toggle_sort();
    app.toggle_sort();
    assert_eq!(app.order, by_name);
}

#[test]
fn sort_children_twice_is_stable() {
    let mut app = mixed();
    app.sort_children();
    let once = app.order.clone();
    app.sort_children();
    assert_eq!(app.order, once);
}

#[test]
fn size_ties_keep_prior_order() {
    let mut app = App::new(build_tree(
        &path("r"),
        vec![dir("r"), file("r/b", 4), file("r/a", 4), file("r/c", 9)],
    ));
    assert_eq!(row_names(&app), vec!["c", "a", "b"]);
    app.toggle_sort();
    assert_eq!(row_names(&app), vec!["a", "b", "c"]);
    app.toggle_sort();
    assert_eq!(row_names(&app), vec!["c", "a", "b"]);
}

#[test]
fn name_order_is_bytewise() {
    assert!(bytes_le(&b"B".to_vec(), &b"a".to_vec()));
    assert!(!bytes_le(&b"ab".to_vec(), &b"a".to_vec()));
    assert!(bytes_le(&b"a".to_vec(), &b"ab".to_vec()));
    assert!(bytes_le(&b"".to_vec(), &b"".to_vec()));
}

#[test]
fn child_counts_split_files_and_dirs() {
    let app = mixed();
    assert_eq!(app.child_counts(), (3, 2));
}

#[test]
fn key_mapping() {
    assert_eq!(handle_key_event(KeyCode::Char('q')), Some(Action::Quit));
    assert_eq!(handle_key_event(KeyCode::Char('s')), Some(Action::ToggleSort));
    assert_eq!(handle_key_event(KeyCode::Down), Some(Action::MoveSelection(1)));
    assert_eq!(handle_key_event(KeyCode::Char('j')), Some(Action::MoveSelection(1)));
    assert_eq!(handle_key_event(KeyCode::Up), Some(Action::MoveSelection(-1)));
    assert_eq!(handle_key_event(KeyCode::Char('k')), Some(Action::MoveSelection(-1)));
    assert_eq!(handle_key_event(KeyCode::Right), Some(Action::NavigateIn));
    assert_eq!(handle_key_event(KeyCode::Enter), Some(Action::NavigateIn));
    assert_eq!(handle_key_event(KeyCode::Left), Some(Action::NavigateOut));
    assert_eq!(handle_key_event(KeyCode::Backspace), Some(Action::NavigateOut));
    assert_eq!(handle_key_event(KeyCode::Char('x')), None);
    assert_eq!(handle_key_event(KeyCode::Other), None);
}
