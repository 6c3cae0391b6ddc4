use collab_db::error::Error;
use collab_db::highlight::{Color, HighlightedMatchWithPaths, HighlightedText, LabelSize};
use collab_db::position::{Point, TypedOffset, TypedPoint, TypedRow};
use collab_db::retry::{is_serialization_failure, next_step, RetryStep};
use collab_db::schema::Db;

struct Buffer;

fn text(s: &str, positions: Vec<usize>) -> HighlightedText {
    HighlightedText {
        text: s.to_string(),
        highlight_positions: positions,
        char_count: s.chars().count(),
        color: Color::Muted,
    }
}

#[test]
fn serialization_conflicts_are_retried() {
    assert!(is_serialization_failure("40001"));
    assert!(!is_serialization_failure("40002"));
    assert!(!is_serialization_failure("4000"));
    assert_eq!(next_step(Some(Some("40001"))), RetryStep::Retry);
    assert_eq!(next_step(Some(Some("23505"))), RetryStep::Finish);
    assert_eq!(next_step(Some(None)), RetryStep::Finish);
    assert_eq!(next_step(None), RetryStep::Finish);
}

#[test]
fn not_found_errors_are_classified() {
    assert!(Error::NoSuchRoom.is_not_found());
    assert!(Error::NoSuchProject.is_not_found());
    assert!(!Error::NoSuchPendingCall.is_not_found());
    assert!(!Error::NotHost.is_not_found());
}

#[test]
fn typed_offsets_add_and_subtract() {
    let a: TypedOffset<Buffer> = TypedOffset::new(7);
    let b: TypedOffset<Buffer> = TypedOffset::new(3);
    assert_eq!(a.add(TypedOffset::new(3)).offset, 10);
    assert_eq!(TypedOffset::<Buffer>::new(7).sub(b).offset, 4);
    let mut c: TypedOffset<Buffer> = TypedOffset::new(1);
    c.add_assign(TypedOffset::new(4));
    c.sub_assign(TypedOffset::new(2));
    assert_eq!(c.offset, 3);
    let mut row: TypedRow<Buffer> = TypedRow::new(9);
    row.sub_assign(TypedRow::new(4));
    assert_eq!(row.row, 5);
    let p: TypedPoint<Buffer> = TypedPoint::new(2, 3);
    assert_eq!(p.point, Point { row: 2, column: 3 });
    assert!(Point { row: 1, column: 9 } < Point { row: 2, column: 0 });
}

#[test]
fn join_moves_highlights_past_separators() {
    let joined = HighlightedText::join(&vec![text("ab", vec![0]), text("cd", vec![1])], "/");
    assert_eq!(joined.text, "ab/cd");
    assert_eq!(joined.highlight_positions, vec![0, 4]);
    assert_eq!(joined.char_count, 5);
    assert_eq!(joined.color, Color::Default);
}

#[test]
fn join_skips_separator_until_text() {
    let joined = HighlightedText::join(&vec![text("", vec![]), text("é", vec![0]), text("x", vec![0])], "::");
    assert_eq!(joined.text, "é::x");
    assert_eq!(joined.char_count, 4);
    assert_eq!(joined.highlight_positions, vec![0, 3]);
    let empty = HighlightedText::join(&vec![], ", ");
    assert_eq!(empty.text, "");
    assert_eq!(empty.char_count, 0);
}

#[test]
fn color_replaces_color_only() {
    let t = text("abc", vec![1]).color(Color::Accent);
    assert_eq!(t.color, Color::Accent);
    assert_eq!(t.text, "abc");
    assert_eq!(t.highlight_positions, vec![1]);
}

#[test]
fn path_labels_are_small_and_muted() {
    let m = HighlightedMatchWithPaths {
        match_label: text("main", vec![0]),
        paths: vec![text("src/main.rs", vec![4, 5]), text("bin/main.rs", vec![])],
    };
    let labels = m.render_paths_children();
    assert_eq!(labels.len(), 2);
    assert_eq!(labels[0].text, "src/main.rs");
    assert_eq!(labels[0].highlight_positions, vec![4, 5]);
    assert!(labels.iter().all(|l| l.size == LabelSize::Small && l.color == Color::Muted));
}

#[test]
fn fuzzy_like_string_keeps_alphanumerics() {
    assert_eq!(Db::fuzzy_like_string("ab-c d"), "%a%b%c%d%");
    assert_eq!(Db::fuzzy_like_string(""), "%");
    assert_eq!(Db::fuzzy_like_string("--"), "%");
}

#[test]
fn typed_positions_default_and_copy() {
    let zero: TypedOffset<Buffer> = TypedOffset::default();
    assert_eq!(zero.offset, 0);
    let row: TypedRow<Buffer> = TypedRow::default();
    assert_eq!(row.row, 0);
    let point: TypedPoint<Buffer> = TypedPoint::default();
    assert_eq!(point.point, Point { row: 0, column: 0 });
    let a: TypedOffset<Buffer> = TypedOffset::new(4);
    let b = a;
    assert_eq!(a.add(b).offset, 8);
}
