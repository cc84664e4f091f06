use internal_checks::source::{Position, Source, SourceMap};
use internal_checks::text::chars_of;

#[test]
fn maps_line_columns_to_byte_offsets() {
    let source = Source::new("first\n    second\n");

    assert_eq!(source.offset(Position { line: 2, column: 4 }), Some(10));
    assert_eq!(source.indentation_at(10), "    ");
    assert_eq!(
        source.text_between(
            Position { line: 1, column: 2 },
            Position { line: 2, column: 4 },
        ),
        Some("rst\n    ".to_string())
    );
}

#[test]
fn detects_the_source_newline_style() {
    assert_eq!(Source::new("a\nb\n").newline(), "\n");
    assert_eq!(Source::new("a\r\nb\r\n").newline(), "\r\n");
}

#[test]
fn rejects_positions_outside_the_text() {
    let source = Source::new("a\nb\n");

    assert_eq!(source.offset(Position { line: 0, column: 0 }), None);
    assert_eq!(source.offset(Position { line: 4, column: 0 }), None);
    assert_eq!(source.offset(Position { line: 3, column: 0 }), Some(4));
}

#[test]
fn maps_indentation_through_the_source_map() {
    let chars = chars_of("fn a() {\n\tlet x = 1;\n}\n");
    let map = SourceMap::new(&chars);

    assert_eq!(map.indentation(&chars, 10), "\t");
    assert_eq!(map.indentation(&chars, 0), "");
    assert_eq!(Source::new("x").text(), &vec!['x']);
}

#[test]
fn adds_columns_as_bytes_to_line_starts() {
    let source = Source::new("a\n\u{e9} x\n");

    assert_eq!(source.offset(Position { line: 2, column: 0 }), Some(2));
    assert_eq!(source.offset(Position { line: 2, column: 1 }), None);
    assert_eq!(source.offset(Position { line: 2, column: 2 }), Some(3));
    assert_eq!(source.offset(Position { line: 2, column: 3 }), Some(4));
    assert_eq!(source.offset(Position { line: 2, column: 9 }), None);
}
