use tab_o_txt::editor::Config;
use tab_o_txt::sheet::Sheet;

#[test]
fn fresh_sheet_is_one_by_one_and_empty() {
    let s = Sheet::new();
    assert_eq!(s.size(), (1, 1));
    assert_eq!(s.tab_size(), 8);
    assert_eq!(s.content_at((0, 0)), None);
    assert_eq!(s.width_at(0), Some(&1));
    assert_eq!(s.width_at(1), None);
    assert_eq!(s.accum_width_at(0), Some(&0));
    assert_eq!(s.accum_width_at(1), Some(&1));
    assert_eq!(s.accum_width_at(2), None);
}

#[test]
fn from_config_keeps_tab_size() {
    let s = Sheet::from(Config { tab_size: 4 });
    assert_eq!(s.tab_size(), 4);
    assert_eq!(s.size(), (1, 1));
}

#[test]
fn worked_example_infers_widths() {
    let s = Sheet::from_str("a\tbb\t\tccc\n", Config::new());
    assert_eq!(s.size(), (3, 1));
    // "a" needs one unit; "bb" plus the absorbed empty token needs two;
    // "ccc" needs one.
    assert_eq!(s.width_at(0), Some(&1));
    assert_eq!(s.width_at(1), Some(&2));
    assert_eq!(s.width_at(2), Some(&1));
    assert_eq!(s.accum_width_at(0), Some(&0));
    assert_eq!(s.accum_width_at(1), Some(&1));
    assert_eq!(s.accum_width_at(2), Some(&3));
    assert_eq!(s.accum_width_at(3), Some(&4));
    assert_eq!(s.content_at((0, 0)), Some("a"));
    assert_eq!(s.content_at((1, 0)), Some("bb"));
    assert_eq!(s.content_at((2, 0)), Some("ccc"));
}

#[test]
fn worked_example_serializes_back() {
    let s = Sheet::from_str("a\tbb\t\tccc\n", Config::new());
    assert_eq!(s.serialize(), "a\tbb\t\tccc\n");
}

#[test]
fn round_trip_preserves_cells() {
    let text = "alpha\tbb\t\tccc\nx\t\tyy\tz\n\nlast\n";
    let s1 = Sheet::from_str(text, Config::new());
    let out = s1.serialize();
    let s2 = Sheet::from_str(&out, Config::new());
    assert_eq!(s1.size(), s2.size());
    for c in 0..s1.size().0 {
        for r in 0..s1.size().1 {
            assert_eq!(s1.content_at((c, r)), s2.content_at((c, r)));
        }
    }
}

#[test]
fn round_trip_after_edits() {
    let mut s1 = Sheet::new();
    s1.edit((0, 0), "one");
    s1.edit((2, 0), "three");
    s1.edit((1, 2), "middle row");
    let out = s1.serialize();
    let s2 = Sheet::from_str(&out, Config::new());
    for c in 0..s1.size().0 {
        for r in 0..s1.size().1 {
            assert_eq!(s1.content_at((c, r)), s2.content_at((c, r)));
        }
    }
}

#[test]
fn edit_upserts_and_grows() {
    let mut s = Sheet::new();
    s.edit((0, 0), "hello");
    assert_eq!(s.size(), (1, 1));
    assert_eq!(s.content_at((0, 0)), Some("hello"));
    s.edit((2, 1), "world");
    assert_eq!(s.size(), (3, 2));
    assert_eq!(s.content_at((2, 1)), Some("world"));
    // Intermediate column created with width one.
    assert_eq!(s.width_at(1), Some(&1));
    s.edit((0, 0), "replaced");
    assert_eq!(s.content_at((0, 0)), Some("replaced"));
    assert_eq!(s.size(), (3, 2));
}

#[test]
fn edit_recomputes_column_width_as_max() {
    let mut s = Sheet::new();
    s.edit((0, 0), "a cell wider than one tab stop");
    assert_eq!(s.width_at(0), Some(&4));
    s.edit((0, 1), "small");
    assert_eq!(s.width_at(0), Some(&4));
    // Shrinking the widest cell shrinks the column.
    s.edit((0, 0), "tiny");
    assert_eq!(s.width_at(0), Some(&1));
}

#[test]
fn prefix_sums_hold_after_every_edit() {
    let mut s = Sheet::new();
    let steps: Vec<((usize, usize), &str)> = vec![
        ((0, 0), "one"),
        ((3, 2), "a rather wide cell body"),
        ((1, 1), "mid"),
        ((3, 2), ""),
        ((0, 0), ""),
    ];
    for (pos, text) in steps {
        s.edit(pos, text);
        let (cols, _rows) = s.size();
        assert_eq!(s.accum_width_at(0), Some(&0));
        let mut sum: usize = 0;
        for c in 0..cols {
            sum += *s.width_at(c).unwrap();
            assert_eq!(s.accum_width_at(c + 1), Some(&sum));
        }
        assert_eq!(s.width_at(cols), None);
        assert_eq!(s.accum_width_at(cols + 1), None);
    }
}

#[test]
fn deleting_last_cell_of_column_compacts() {
    let mut s = Sheet::new();
    s.edit((0, 0), "a");
    s.edit((1, 0), "b");
    s.edit((1, 1), "c");
    assert_eq!(s.size(), (2, 2));
    s.edit((0, 0), "");
    // Column zero became empty and was removed; higher columns shifted
    // down by one. Row zero still holds "b".
    assert_eq!(s.size(), (1, 2));
    assert_eq!(s.content_at((0, 0)), Some("b"));
    assert_eq!(s.content_at((0, 1)), Some("c"));
    assert_eq!(s.content_at((1, 0)), None);
}

#[test]
fn deleting_last_cell_of_row_compacts() {
    let mut s = Sheet::new();
    s.edit((0, 0), "a");
    s.edit((0, 1), "b");
    s.edit((1, 1), "c");
    assert_eq!(s.size(), (2, 2));
    s.edit((0, 0), "");
    // Row zero became empty and was removed; higher rows shifted up.
    assert_eq!(s.size(), (2, 1));
    assert_eq!(s.content_at((0, 0)), Some("b"));
    assert_eq!(s.content_at((1, 0)), Some("c"));
    assert_eq!(s.content_at((0, 1)), None);
}

#[test]
fn deleting_keeps_occupied_axes() {
    let mut s = Sheet::new();
    s.edit((0, 0), "a");
    s.edit((1, 0), "b");
    s.edit((0, 1), "c");
    s.edit((1, 0), "");
    // Column one is empty now, row zero is not.
    assert_eq!(s.size(), (1, 2));
    assert_eq!(s.content_at((0, 0)), Some("a"));
    assert_eq!(s.content_at((0, 1)), Some("c"));
}

#[test]
fn deleting_the_only_cell_keeps_a_one_by_one_grid() {
    let mut s = Sheet::new();
    s.edit((0, 0), "only");
    s.edit((0, 0), "");
    assert_eq!(s.size(), (1, 1));
    assert_eq!(s.content_at((0, 0)), None);
}

#[test]
fn deleting_an_absent_cell_changes_nothing() {
    let mut s = Sheet::new();
    s.edit((0, 0), "keep");
    s.edit((5, 7), "");
    assert_eq!(s.size(), (1, 1));
    assert_eq!(s.content_at((0, 0)), Some("keep"));
}

#[test]
fn unicode_width_drives_column_units() {
    // Five fullwidth characters are ten terminal columns wide, so the
    // column needs two tab-stop units of eight; five ASCII characters
    // would need only one.
    let mut s = Sheet::new();
    s.edit((0, 0), "\u{65e5}\u{672c}\u{8a9e}\u{3067}\u{3059}");
    assert_eq!(s.width_at(0), Some(&2));
    let mut t = Sheet::new();
    t.edit((0, 0), "abcde");
    assert_eq!(t.width_at(0), Some(&1));
}

#[test]
fn empty_text_loads_fresh() {
    let s = Sheet::from_str("", Config::new());
    assert_eq!(s.size(), (1, 1));
    assert_eq!(s.content_at((0, 0)), None);
}

#[test]
fn lone_newline_loads_one_empty_row() {
    let s = Sheet::from_str("\n", Config::new());
    assert_eq!(s.size(), (1, 1));
    assert_eq!(s.content_at((0, 0)), None);
}

#[test]
fn ragged_rows_are_not_an_error() {
    let s = Sheet::from_str("a\tb\tc\nonly\n", Config::new());
    assert_eq!(s.size().1, 2);
    assert_eq!(s.content_at((0, 0)), Some("a"));
    assert_eq!(s.content_at((1, 0)), Some("b"));
    assert_eq!(s.content_at((2, 0)), Some("c"));
    assert_eq!(s.content_at((0, 1)), Some("only"));
    assert_eq!(s.content_at((1, 1)), None);
}

#[test]
fn display_pos_uses_accumulated_widths() {
    let s = Sheet::from_str("a\tbb\t\tccc\n", Config::new());
    // Column two starts three tab stops in: 24 terminal columns.
    assert_eq!(s.get_display_pos((2, 0), (0, 0)), (24, 0));
    assert_eq!(s.get_display_pos((1, 0), (1, 0)), (0, 0));
}

#[test]
fn round_trip_keeps_widths_when_fully_occupied() {
    // Every cell occupied and the last column exactly as wide as its
    // widest cell: reloading the serialized text recovers the widths too.
    let s1 = Sheet::from_str("aa\tbb\ncc\tdddddddddd\n", Config::new());
    assert_eq!(s1.size(), (2, 2));
    assert_eq!(s1.width_at(0), Some(&1));
    assert_eq!(s1.width_at(1), Some(&2));
    let out = s1.serialize();
    let s2 = Sheet::from_str(&out, Config::new());
    assert_eq!(s2.size(), (2, 2));
    assert_eq!(s2.width_at(0), Some(&1));
    assert_eq!(s2.width_at(1), Some(&2));
    for c in 0..2 {
        for r in 0..2 {
            assert_eq!(s1.content_at((c, r)), s2.content_at((c, r)));
        }
    }
}
