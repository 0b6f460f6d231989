use sapvc_lsp::position::{byte_to_position, position_to_byte, width, Position};

fn at(line: u32, character: u32) -> Position {
    Position { line, character }
}

#[test]
fn offset_of_second_line() {
    assert_eq!(position_to_byte("ab\ncd", at(1, 1)), Some(4));
}

#[test]
fn offsets_count_bytes_of_wide_characters() {
    let text = "中文a\nb";
    assert_eq!(position_to_byte(text, at(0, 0)), Some(0));
    assert_eq!(position_to_byte(text, at(0, 1)), Some(3));
    assert_eq!(position_to_byte(text, at(0, 2)), Some(6));
    assert_eq!(position_to_byte(text, at(0, 3)), Some(7));
    assert_eq!(position_to_byte(text, at(1, 0)), Some(8));
}

#[test]
fn character_behind_the_line_stands_at_its_end() {
    assert_eq!(position_to_byte("ab\ncd", at(0, 99)), Some(2));
    assert_eq!(position_to_byte("ab\r\ncd", at(0, 99)), Some(3));
}

#[test]
fn line_behind_the_text_has_no_offset() {
    assert_eq!(position_to_byte("ab\ncd", at(2, 0)), None);
    assert_eq!(position_to_byte("", at(1, 0)), None);
}

#[test]
fn empty_last_line_has_an_offset() {
    assert_eq!(position_to_byte("ab\n", at(1, 0)), Some(3));
    assert_eq!(position_to_byte("", at(0, 5)), Some(0));
}

#[test]
fn positions_count_characters() {
    let text = "中文a\nb";
    assert_eq!(byte_to_position(0, text), at(0, 0));
    assert_eq!(byte_to_position(6, text), at(0, 2));
    assert_eq!(byte_to_position(7, text), at(0, 3));
    assert_eq!(byte_to_position(8, text), at(1, 0));
    assert_eq!(byte_to_position(9, text), at(1, 1));
    assert_eq!(byte_to_position(1000, text), at(1, 1));
}

#[test]
fn positions_and_offsets_undo_each_other() {
    let text = "a中\n\n文b\n";
    for (byte, _) in text.char_indices() {
        let position = byte_to_position(byte, text);
        assert_eq!(position_to_byte(text, position), Some(byte));
    }
    assert_eq!(position_to_byte(text, byte_to_position(text.len(), text)), Some(text.len()));
}

#[test]
fn width_is_that_of_utf8() {
    for code in 0..=0x10ffffu32 {
        if let Some(c) = char::from_u32(code) {
            assert_eq!(width(c), c.len_utf8());
        }
    }
}
