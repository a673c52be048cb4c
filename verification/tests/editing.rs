use mystic_draw::{Buffer, DosChar, Editor, Event, Position, Rectangle, Selection, TextAttribute, UndoOperation};

fn cell(c: u8) -> DosChar {
    DosChar { char_code: c, attribute: TextAttribute::from_color(7, 0) }
}

fn editor(w: u16, h: u16) -> Editor {
    Editor::new(0, Buffer::create(w, h))
}

fn row(e: &Editor, y: i32, w: i32) -> Vec<u8> {
    (0..w).map(|x| e.get_char(Position::from(x, y)).char_code).collect()
}

#[test]
fn set_char_then_undo_restores_and_redo_repeats() {
    let mut e = editor(10, 5);
    e.set_char(Position::from(2, 1), Some(cell(b'A')));
    assert_eq!(b'A', e.get_char(Position::from(2, 1)).char_code);
    assert_eq!(1, e.buf.undo_stack.len());
    e.undo();
    assert_eq!(b' ', e.get_char(Position::from(2, 1)).char_code);
    assert_eq!(0, e.buf.undo_stack.len());
    assert_eq!(1, e.buf.redo_stack.len());
    e.redo();
    assert_eq!(b'A', e.get_char(Position::from(2, 1)).char_code);
}

#[test]
fn set_char_outside_the_picture_records_nothing() {
    let mut e = editor(10, 5);
    e.set_char(Position::from(10, 1), Some(cell(b'A')));
    e.set_char(Position::from(-1, 0), Some(cell(b'A')));
    assert_eq!(0, e.buf.undo_stack.len());
}

#[test]
fn fill_is_one_undo_step() {
    let mut e = editor(10, 5);
    e.set_char(Position::from(0, 0), Some(cell(b'Q')));
    e.fill(Rectangle::from(1, 1, 3, 2), Some(cell(b'#')));
    assert_eq!(2, e.buf.undo_stack.len());
    assert!(matches!(e.buf.undo_stack[1], UndoOperation::Atomic { .. }));
    assert_eq!(b"#".to_vec(), vec![e.get_char(Position::from(3, 2)).char_code]);
    e.undo();
    for y in 0..5 {
        for x in 0..10 {
            let expected = if x == 0 && y == 0 { b'Q' } else { b' ' };
            assert_eq!(expected, e.get_char(Position::from(x, y)).char_code);
        }
    }
}

#[test]
fn justify_left_moves_row_content_left() {
    let mut e = editor(6, 1);
    e.set_char(Position::from(2, 0), Some(cell(b'A')));
    e.set_char(Position::from(3, 0), Some(cell(b'B')));
    e.justify_left();
    assert_eq!(b"AB    ".to_vec(), row(&e, 0, 6));
    e.undo();
    assert_eq!(b"  AB  ".to_vec(), row(&e, 0, 6));
}

#[test]
fn justify_right_moves_row_content_right() {
    let mut e = editor(6, 1);
    e.set_char(Position::from(1, 0), Some(cell(b'A')));
    e.set_char(Position::from(2, 0), Some(cell(b'B')));
    e.justify_right();
    assert_eq!(b"    AB".to_vec(), row(&e, 0, 6));
}

#[test]
fn justify_center_centers_row_content() {
    let mut e = editor(6, 1);
    e.set_char(Position::from(0, 0), Some(cell(b'A')));
    e.set_char(Position::from(1, 0), Some(cell(b'B')));
    e.justify_center();
    assert_eq!(b"  AB  ".to_vec(), row(&e, 0, 6));
    e.undo();
    assert_eq!(b"AB    ".to_vec(), row(&e, 0, 6));
}

#[test]
fn flip_x_mirrors_the_row() {
    let mut e = editor(4, 1);
    for (x, c) in b"ABCD".iter().enumerate() {
        e.set_char(Position::from(x as i32, 0), Some(cell(*c)));
    }
    e.flip_x();
    assert_eq!(b"DCBA".to_vec(), row(&e, 0, 4));
    e.undo();
    assert_eq!(b"ABCD".to_vec(), row(&e, 0, 4));
}

#[test]
fn flip_y_mirrors_the_selection() {
    let mut e = editor(1, 3);
    for (y, c) in b"XYZ".iter().enumerate() {
        e.set_char(Position::from(0, y as i32), Some(cell(*c)));
    }
    let mut sel = Selection::new();
    sel.rectangle = Rectangle::from(0, 0, 1, 3);
    e.cur_selection = Some(sel);
    e.flip_y();
    assert_eq!(b'Z', e.get_char(Position::from(0, 0)).char_code);
    assert_eq!(b'Y', e.get_char(Position::from(0, 1)).char_code);
    assert_eq!(b'X', e.get_char(Position::from(0, 2)).char_code);
}

#[test]
fn crop_keeps_the_block() {
    let mut e = editor(10, 10);
    e.set_char(Position::from(3, 4), Some(cell(b'C')));
    let mut sel = Selection::new();
    sel.rectangle = Rectangle::from(3, 4, 4, 3);
    e.cur_selection = Some(sel);
    e.crop();
    assert_eq!(3, e.buf.width);
    assert_eq!(2, e.buf.height);
    assert_eq!(b'C', e.get_char(Position::from(0, 0)).char_code);
    e.undo();
    assert_eq!(10, e.buf.width);
    assert_eq!(b'C', e.get_char(Position::from(3, 4)).char_code);
}

#[test]
fn delete_selection_blanks_and_drops_it() {
    let mut e = editor(5, 5);
    e.set_char(Position::from(1, 1), Some(cell(b'K')));
    let mut sel = Selection::new();
    sel.rectangle = Rectangle::from(0, 0, 3, 3);
    e.cur_selection = Some(sel);
    e.delete_selection();
    assert!(e.cur_selection.is_none());
    assert_eq!(b' ', e.get_char(Position::from(1, 1)).char_code);
}

#[test]
fn type_key_writes_and_moves_the_cursor() {
    let mut e = editor(5, 2);
    e.cursor.attr = TextAttribute::from_color(4, 1);
    e.type_key(b'x');
    assert_eq!(b'x', e.get_char(Position::from(0, 0)).char_code);
    assert_eq!(Position::from(1, 0), e.get_cursor_position());
    e.cursor.pos = Position::from(4, 0);
    e.type_key(b'y');
    assert_eq!(Position::from(4, 0), e.get_cursor_position());
}

#[test]
fn set_cursor_clamps_to_the_picture() {
    let mut e = editor(5, 3);
    let ev = e.set_cursor(9, -4);
    assert_eq!(Position::from(4, 0), e.get_cursor_position());
    match ev {
        Event::CursorPositionChange(a, b) => {
            assert_eq!(Position::from(0, 0), a);
            assert_eq!(Position::from(4, 0), b);
        }
        Event::Nothing => panic!("no event"),
    }
}

#[test]
fn clear_cur_layer_is_undone() {
    let mut e = editor(5, 3);
    e.set_char(Position::from(1, 1), Some(cell(b'Z')));
    e.clear_cur_layer();
    assert_eq!(b' ', e.get_char(Position::from(1, 1)).char_code);
    e.undo();
    assert_eq!(b'Z', e.get_char(Position::from(1, 1)).char_code);
}

#[test]
fn outline_codes() {
    assert_eq!(Ok(218), Editor::get_outline_char_code_from(0, 0));
    assert_eq!(Ok(154), Editor::get_outline_char_code_from(14, 9));
    assert_eq!(Err("current outline out of range."), Editor::get_outline_char_code_from(15, 0));
    assert_eq!(Err("outline char# out of range."), Editor::get_outline_char_code_from(0, 11));
    let mut e = editor(5, 3);
    e.set_cur_outline(1);
    assert_eq!(Ok(201), e.get_outline_char_code(0));
}

#[test]
fn pickup_color_takes_the_shown_attribute() {
    let mut e = editor(5, 3);
    e.set_char(Position::from(1, 1), Some(DosChar { char_code: b'a', attribute: TextAttribute::from_color(3, 2) }));
    e.pickup_color(Position::from(1, 1));
    assert_eq!(3, e.cursor.get_attribute().get_foreground());
    assert_eq!(2, e.cursor.get_attribute().get_background());
}

#[test]
fn insert_and_delete_lines() {
    let mut e = editor(5, 3);
    e.set_char(Position::from(0, 0), Some(cell(b'1')));
    e.set_char(Position::from(0, 1), Some(cell(b'2')));
    e.insert_line(0);
    assert_eq!(b'1', e.get_char(Position::from(0, 1)).char_code);
    e.delete_line(0);
    e.delete_line(0);
    assert_eq!(b'2', e.get_char(Position::from(0, 0)).char_code);
}

#[test]
fn cur_layer_mut_changes_the_current_layer() {
    let mut e = editor(10, 5);
    e.get_cur_layer_mut().unwrap().set_char(Position::from(1, 1), cell(b'Q'));
    assert_eq!(b'Q', e.get_char(Position::from(1, 1)).char_code);
    e.cur_layer = 3;
    assert!(e.get_cur_layer_mut().is_none());
}

#[test]
fn typing_keeps_the_other_cells() {
    let mut e = editor(10, 5);
    e.set_char(Position::from(0, 0), Some(cell(b'A')));
    e.set_cursor_position(Position::from(3, 0));
    e.type_key(b'Z');
    assert_eq!(b"A  Z      ".to_vec(), row(&e, 0, 10));
    assert_eq!(Position::from(4, 0), e.get_cursor_position());
}
