use tab_o_txt::editor::Config;
use tab_o_txt::editor::Editor;
use tab_o_txt::editor::Key;
use tab_o_txt::editor::Mode;

const VIEW: (usize, usize) = (80, 24);

fn filled(cols: usize, rows: usize) -> Editor {
    let mut text = String::new();
    for r in 0..rows {
        for c in 0..cols {
            text.push_str(&format!("c{}r{}", c, r));
            text.push('\t');
        }
        text.push('\n');
    }
    Editor::new(Config::new(), None, Some(&text))
}

#[test]
fn new_session_starts_navigating_at_origin() {
    let e = Editor::new(Config::new(), None, None);
    assert_eq!(e.mode, Mode::Navigate);
    assert_eq!(e.pos, (0, 0));
    assert_eq!(e.corner, (0, 0));
    assert_eq!(e.sheet.size(), (1, 1));
}

#[test]
fn cursor_clamps_at_the_edges() {
    let mut e = filled(3, 3);
    assert_eq!(e.sheet.size(), (3, 3));
    e.move_pos_by(-1, 0, VIEW);
    assert_eq!(e.pos, (0, 0));
    e.move_pos_by(0, -5, VIEW);
    assert_eq!(e.pos, (0, 0));
    for _ in 0..10 {
        e.move_pos_by(1, 0, VIEW);
        e.move_pos_by(0, 1, VIEW);
        assert!(e.pos.0 < e.sheet.size().0);
        assert!(e.pos.1 < e.sheet.size().1);
    }
    assert_eq!(e.pos, (2, 2));
    e.move_pos_by(-100, -100, VIEW);
    assert_eq!(e.pos, (0, 0));
}

#[test]
fn scrolling_follows_the_cursor_by_one() {
    // A viewport window of four rows over a five-row sheet: the fifth
    // down-move pushes the corner to exactly one; the sixth leaves it.
    let r = 4;
    let mut e = filled(1, r + 1);
    let view = (80, r + 1);
    for _ in 0..(r + 1) {
        e.move_pos_by(0, 1, view);
    }
    assert_eq!(e.pos.1, r);
    assert_eq!(e.corner.1, 1);
    e.move_pos_by(0, 1, view);
    assert_eq!(e.corner.1, 1);
}

#[test]
fn navigate_keys_move_and_switch_modes() {
    let mut e = filled(3, 3);
    e.navigate_key(Key::Down, VIEW);
    e.navigate_key(Key::Right, VIEW);
    assert_eq!(e.pos, (1, 1));
    assert_eq!(e.mode, Mode::Navigate);
    e.navigate_key(Key::Other, VIEW);
    assert_eq!(e.pos, (1, 1));
    assert_eq!(e.mode, Mode::Navigate);
    e.navigate_key(Key::BeginEdit, VIEW);
    assert_eq!(e.mode, Mode::Edit);
    e.mode = Mode::Navigate;
    e.navigate_key(Key::BeginCommand, VIEW);
    assert_eq!(e.mode, Mode::Command);
    e.mode = Mode::Navigate;
    e.navigate_key(Key::Escape, VIEW);
    assert_eq!(e.mode, Mode::Quit);
}

#[test]
fn page_keys_move_by_a_viewport() {
    let mut e = filled(1, 50);
    let view = (80, 11);
    e.navigate_key(Key::PageDown, view);
    assert_eq!(e.pos.1, 10);
    e.navigate_key(Key::PageDown, view);
    assert_eq!(e.pos.1, 20);
    e.navigate_key(Key::PageUp, view);
    assert_eq!(e.pos.1, 10);
}

#[test]
fn committing_an_edit_returns_to_navigate() {
    let mut e = Editor::new(Config::new(), None, None);
    e.mode = Mode::Edit;
    e.edit("written");
    assert_eq!(e.mode, Mode::Navigate);
    assert_eq!(e.sheet.content_at((0, 0)), Some("written"));
}

#[test]
fn deleting_under_the_cursor_reclamps_it() {
    let mut e = filled(2, 2);
    e.move_pos_by(1, 1, VIEW);
    assert_eq!(e.pos, (1, 1));
    // Delete every cell of column one; the grid narrows and the cursor
    // must come back inside.
    e.edit("");
    assert_eq!(e.sheet.content_at((1, 1)), None);
    assert!(e.pos.0 < e.sheet.size().0);
    assert!(e.pos.1 < e.sheet.size().1);
}

#[test]
fn command_w_asks_for_a_save() {
    let mut e = Editor::new(Config::new(), None, None);
    e.mode = Mode::Command;
    let save = e.parse_command("w");
    assert!(save);
    assert_eq!(e.mode, Mode::Navigate);
}

#[test]
fn command_q_quits() {
    let mut e = Editor::new(Config::new(), None, None);
    e.mode = Mode::Command;
    let save = e.parse_command("q");
    assert!(!save);
    assert_eq!(e.mode, Mode::Quit);
}

#[test]
fn unknown_commands_are_a_no_op() {
    let mut e = Editor::new(Config::new(), None, None);
    e.mode = Mode::Command;
    assert!(!e.parse_command("x"));
    assert_eq!(e.mode, Mode::Navigate);
    e.mode = Mode::Command;
    assert!(!e.parse_command("wq"));
    assert_eq!(e.mode, Mode::Navigate);
    e.mode = Mode::Command;
    assert!(!e.parse_command(""));
    assert_eq!(e.mode, Mode::Navigate);
}

#[test]
fn session_loads_given_text() {
    let e = Editor::new(Config::new(), None, Some("a\tbb\t\tccc\n"));
    assert_eq!(e.sheet.size(), (3, 1));
    assert_eq!(e.sheet.content_at((1, 0)), Some("bb"));
    assert_eq!(e.file_path, None);
}
