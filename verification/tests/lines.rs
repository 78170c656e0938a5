use sv_language_index::position::LineIndex;
use sv_language_index::syntax::{Locate, Newline, SyntaxTree};
use sv_language_index::IndexError;

fn tree_with_newlines(newlines: Vec<Newline>) -> SyntaxTree {
    SyntaxTree { newlines, descriptions: vec![] }
}

fn agree(li: &LineIndex, line: u32, offset: usize) {
    let by_locate = li.locate_to_position(&Locate { offset, line, len: 1 }).unwrap();
    let by_offset = li.offset_to_position(offset);
    assert_eq!(by_locate, by_offset);
}

// "a\nb\n\nc": LF terminators, one of them opening a blank line.
#[test]
fn positions_agree_lf_only() {
    let li = LineIndex::new(&tree_with_newlines(vec![
        Newline { offset: 1, text: b"\n".to_vec() },
        Newline { offset: 3, text: b"\n\n".to_vec() },
    ]));
    // lines start at 0, 2, 4, 5
    agree(&li, 1, 0);
    agree(&li, 2, 2);
    agree(&li, 3, 4);
    agree(&li, 4, 5);
    let p = li.offset_to_position(5);
    assert_eq!((p.row, p.col), (3, 0));
}

// "a\r\nb": a CR-LF pair is one terminator, not two.
#[test]
fn positions_agree_crlf_only() {
    let li = LineIndex::new(&tree_with_newlines(vec![Newline {
        offset: 1,
        text: b"\r\n".to_vec(),
    }]));
    agree(&li, 1, 0);
    agree(&li, 2, 3);
    let p = li.offset_to_position(3);
    assert_eq!((p.row, p.col), (1, 0));
}

// "a\r\n\n\nb": mixed terminators with consecutive blank lines.
#[test]
fn positions_agree_mixed_terminators() {
    let li = LineIndex::new(&tree_with_newlines(vec![Newline {
        offset: 1,
        text: b"\r\n\n\n".to_vec(),
    }]));
    // lines start at 0, 3, 4, 5
    agree(&li, 1, 0);
    agree(&li, 2, 3);
    agree(&li, 3, 4);
    agree(&li, 4, 5);
    let p = li.offset_to_position(4);
    assert_eq!((p.row, p.col), (2, 0));
    let p = li.offset_to_position(6);
    assert_eq!((p.row, p.col), (3, 1));
}

// A lone carriage return terminates nothing.
#[test]
fn lone_carriage_return_is_no_terminator() {
    let li = LineIndex::new(&tree_with_newlines(vec![Newline {
        offset: 1,
        text: b"\r".to_vec(),
    }]));
    let p = li.offset_to_position(4);
    assert_eq!((p.row, p.col), (0, 4));
}

// A 1-based line number with no table entry is a reported inconsistency.
#[test]
fn out_of_table_line_is_mismatch() {
    let li = LineIndex::new(&tree_with_newlines(vec![]));
    let err = li.locate_to_position(&Locate { offset: 9, line: 2, len: 1 }).unwrap_err();
    assert_eq!(err, IndexError::LineIndexMismatch);
    let err = li.locate_to_position(&Locate { offset: 9, line: 0, len: 1 }).unwrap_err();
    assert_eq!(err, IndexError::LineIndexMismatch);
}

// Column is the offset minus the containing line's start.
#[test]
fn column_is_offset_within_row() {
    let li = LineIndex::new(&tree_with_newlines(vec![Newline {
        offset: 10,
        text: b"\n".to_vec(),
    }]));
    let p = li.locate_to_position(&Locate { offset: 17, line: 2, len: 3 }).unwrap();
    assert_eq!((p.row, p.col), (1, 6));
}
