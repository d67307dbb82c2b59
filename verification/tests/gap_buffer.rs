use data_structures::arrays::gap_buffer::GapBuffer;
use data_structures::arrays::gap_model::{MIN_BUF_SIZE, SHRINK_THRESHOLD};

fn type_text(buffer: &mut GapBuffer, text: &str) {
    for c in text.chars() {
        buffer.insert(c);
    }
}

#[test]
fn test_new_buffer() {
    let gap_buffer = GapBuffer::new(10);
    assert_eq!(gap_buffer.capacity(), MIN_BUF_SIZE);
    assert_eq!(gap_buffer.cursor(), 0);
    assert_eq!(gap_buffer.gap_end(), MIN_BUF_SIZE);
}

#[test]
fn test_insert() {
    let mut gap_buffer = GapBuffer::new(4);
    gap_buffer.insert('a');
    gap_buffer.insert('b');
    gap_buffer.insert('c');
    gap_buffer.insert('d');

    let extracted_text = gap_buffer.extract_text();
    assert_eq!(extracted_text, "abcd");
}

#[test]
fn test_cursor_move_left() {
    let mut gap_buffer = GapBuffer::new(4);
    gap_buffer.insert('a');
    gap_buffer.insert('b');
    gap_buffer.insert('c');
    gap_buffer.move_cursor(1);
    gap_buffer.insert('x');

    let extracted_text = gap_buffer.extract_text();
    assert_eq!(extracted_text, "axbc");
}

#[test]
fn test_cursor_move_right() {
    let mut gap_buffer = GapBuffer::new(4);
    gap_buffer.insert('a');
    gap_buffer.insert('b');
    gap_buffer.insert('c');
    gap_buffer.move_cursor(1);
    gap_buffer.move_cursor(3);
    gap_buffer.insert('x');

    let extracted_text = gap_buffer.extract_text();
    assert_eq!(extracted_text, "abcx");
}

#[test]
fn test_delete() {
    let mut gap_buffer = GapBuffer::new(4);
    gap_buffer.insert('a');
    gap_buffer.insert('b');
    gap_buffer.insert('c');
    gap_buffer.insert('d');
    gap_buffer.move_cursor(2);
    gap_buffer.delete();

    let extracted_text = gap_buffer.extract_text();
    assert_eq!(extracted_text, "abd");
}

#[test]
fn test_backspace() {
    let mut gap_buffer = GapBuffer::new(4);
    gap_buffer.insert('a');
    gap_buffer.insert('b');
    gap_buffer.insert('c');
    gap_buffer.backspace();

    let extracted_text = gap_buffer.extract_text();
    assert_eq!(extracted_text, "ab");
}

#[test]
fn gap_buffer_test_grow() {
    let mut gap_buffer = GapBuffer::new(2);
    gap_buffer.insert('a');
    gap_buffer.insert('b');
    gap_buffer.insert('c');
    gap_buffer.insert('d');
    gap_buffer.insert('e');

    let extracted_text = gap_buffer.extract_text();
    assert_eq!(extracted_text, "abcde");
    assert!(gap_buffer.capacity() > 4);
}

#[test]
fn test_shrink() {
    let mut gap_buffer = GapBuffer::new(8);
    gap_buffer.insert('a');
    gap_buffer.insert('b');
    gap_buffer.insert('c');
    gap_buffer.insert('d');
    gap_buffer.backspace();
    gap_buffer.backspace();
    gap_buffer.backspace();

    let extracted_text = gap_buffer.extract_text();
    assert_eq!(extracted_text, "a");
    assert_eq!(gap_buffer.capacity(), MIN_BUF_SIZE);
}

#[test]
fn test_extract_text() {
    let mut gap_buffer = GapBuffer::new(10);
    gap_buffer.insert('h');
    gap_buffer.insert('e');
    gap_buffer.insert('l');
    gap_buffer.insert('l');
    gap_buffer.insert('o');
    gap_buffer.move_cursor(2);
    gap_buffer.insert('y');

    let extracted_text = gap_buffer.extract_text();
    assert_eq!(extracted_text, "heyllo");
}

#[test]
fn test_move_cursor_beyond_bounds() {
    let mut gap_buffer = GapBuffer::new(10);
    gap_buffer.insert('h');
    gap_buffer.insert('e');
    gap_buffer.insert('l');
    gap_buffer.insert('l');
    gap_buffer.insert('o');

    gap_buffer.move_cursor(usize::MAX);
    assert_eq!(gap_buffer.cursor(), 5);

    gap_buffer.move_cursor(0);
    assert_eq!(gap_buffer.cursor(), 0);

    gap_buffer.move_cursor(usize::MAX);
    assert_eq!(gap_buffer.cursor(), 5);
}

#[test]
fn new_rounds_small_requests_up() {
    assert_eq!(GapBuffer::new(0).capacity(), 1024);
    assert_eq!(GapBuffer::new(1023).capacity(), 1024);
    assert_eq!(GapBuffer::new(1024).capacity(), 1024);
    assert_eq!(SHRINK_THRESHOLD, MIN_BUF_SIZE);
}

#[test]
fn new_keeps_large_requests() {
    let buffer = GapBuffer::new(5000);
    assert_eq!(buffer.capacity(), 5000);
    assert_eq!(buffer.gap_end(), 5000);
    assert_eq!(buffer.used_size(), 0);
    assert_eq!(buffer.extract_text(), "");
}

#[test]
fn introspection_follows_the_edits() {
    let mut buffer = GapBuffer::new(4);
    type_text(&mut buffer, "hello");
    assert_eq!(buffer.used_size(), 5);
    assert_eq!(buffer.cursor(), 5);
    assert_eq!(buffer.gap_end(), 1024);
    buffer.move_cursor(2);
    assert_eq!(buffer.used_size(), 5);
    assert_eq!(buffer.cursor(), 2);
    assert_eq!(buffer.gap_end(), 1021);
    assert_eq!(buffer.capacity(), 1024);
    assert_eq!(buffer.extract_text(), "hello");
}

#[test]
fn delete_at_end_of_text_does_nothing() {
    let mut buffer = GapBuffer::new(4);
    type_text(&mut buffer, "abc");
    buffer.delete();
    assert_eq!(buffer.extract_text(), "abc");
    assert_eq!(buffer.cursor(), 3);
}

#[test]
fn delete_removes_the_character_right_of_the_cursor() {
    let mut buffer = GapBuffer::new(4);
    type_text(&mut buffer, "abcd");
    buffer.move_cursor(0);
    buffer.delete();
    assert_eq!(buffer.extract_text(), "bcd");
    assert_eq!(buffer.cursor(), 0);
    buffer.delete();
    buffer.delete();
    buffer.delete();
    assert_eq!(buffer.extract_text(), "");
    buffer.delete();
    assert_eq!(buffer.extract_text(), "");
}

#[test]
fn delete_works_in_a_full_buffer() {
    let mut buffer = GapBuffer::new(4);
    for _ in 0..1024 {
        buffer.insert('z');
    }
    assert_eq!(buffer.used_size(), buffer.capacity());
    buffer.move_cursor(5);
    buffer.delete();
    assert_eq!(buffer.used_size(), 1023);
    assert_eq!(buffer.cursor(), 5);
}

#[test]
fn backspace_at_start_does_nothing() {
    let mut buffer = GapBuffer::new(4);
    type_text(&mut buffer, "abc");
    buffer.move_cursor(0);
    buffer.backspace();
    assert_eq!(buffer.extract_text(), "abc");
    assert_eq!(buffer.cursor(), 0);
}

#[test]
fn backspace_between_characters_takes_the_left_one_only() {
    let mut buffer = GapBuffer::new(4);
    type_text(&mut buffer, "abcd");
    buffer.move_cursor(2);
    buffer.backspace();
    assert_eq!(buffer.extract_text(), "acd");
    assert_eq!(buffer.cursor(), 1);
    assert_eq!(buffer.used_size(), 3);
    buffer.backspace();
    assert_eq!(buffer.extract_text(), "cd");
    assert_eq!(buffer.cursor(), 0);
    buffer.backspace();
    assert_eq!(buffer.extract_text(), "cd");
}

#[test]
fn backspace_works_in_a_full_buffer() {
    let mut buffer = GapBuffer::new(4);
    for _ in 0..1024 {
        buffer.insert('z');
    }
    buffer.move_cursor(5);
    buffer.backspace();
    assert_eq!(buffer.used_size(), 1023);
    assert_eq!(buffer.cursor(), 4);
    assert_eq!(buffer.capacity(), 1024);
}

#[test]
fn moving_the_cursor_keeps_the_text() {
    let mut buffer = GapBuffer::new(4);
    type_text(&mut buffer, "abcdefgh");
    for pos in [0usize, 8, 3, 5, 1, 7, 4, 4, 100, 0] {
        buffer.move_cursor(pos);
        assert_eq!(buffer.cursor(), pos.min(8));
        assert_eq!(buffer.extract_text(), "abcdefgh");
        assert_eq!(buffer.capacity(), 1024);
    }
}

#[test]
fn moving_right_brings_back_the_text_behind_the_gap() {
    let mut buffer = GapBuffer::new(4);
    type_text(&mut buffer, "abcdef");
    buffer.move_cursor(1);
    buffer.insert('1');
    buffer.move_cursor(5);
    buffer.insert('2');
    assert_eq!(buffer.extract_text(), "a1bcd2ef");
    buffer.move_cursor(8);
    buffer.insert('3');
    assert_eq!(buffer.extract_text(), "a1bcd2ef3");
}

#[test]
fn growth_doubles_the_capacity_when_the_gap_is_used_up() {
    let mut buffer = GapBuffer::new(4);
    for _ in 0..1024 {
        buffer.insert('x');
    }
    assert_eq!(buffer.capacity(), 1024);
    assert_eq!(buffer.cursor(), buffer.gap_end());
    buffer.insert('y');
    assert_eq!(buffer.capacity(), 2048);
    assert_eq!(buffer.used_size(), 1025);
    assert_eq!(buffer.cursor(), 1025);
    assert_eq!(buffer.gap_end(), 2048);
}

#[test]
fn growth_keeps_the_text_on_both_sides_of_the_cursor() {
    let mut buffer = GapBuffer::new(4);
    let mut expected = String::new();
    for i in 0..1024u32 {
        let c = char::from_u32('a' as u32 + i % 26).unwrap();
        buffer.insert(c);
        expected.push(c);
    }
    buffer.move_cursor(100);
    buffer.insert('#');
    expected.insert(100, '#');
    assert_eq!(buffer.capacity(), 2048);
    assert_eq!(buffer.cursor(), 101);
    assert_eq!(buffer.extract_text(), expected);
}

#[test]
fn shrink_goes_to_twice_the_text() {
    let mut buffer = GapBuffer::new(8192);
    for _ in 0..2048 {
        buffer.insert('x');
    }
    assert_eq!(buffer.capacity(), 8192);
    buffer.backspace();
    assert_eq!(buffer.used_size(), 2047);
    assert_eq!(buffer.capacity(), 4094);
    assert_eq!(buffer.extract_text().len(), 2047);
}

#[test]
fn shrink_never_goes_below_the_minimum() {
    let mut buffer = GapBuffer::new(4096);
    buffer.insert('a');
    buffer.backspace();
    assert_eq!(buffer.capacity(), 1024);
    assert_eq!(buffer.extract_text(), "");
}

#[test]
fn delete_at_end_of_text_leaves_sparse_storage_alone() {
    let mut buffer = GapBuffer::new(4096);
    buffer.delete();
    assert_eq!(buffer.capacity(), 4096);
    assert_eq!(buffer.cursor(), 0);
    assert_eq!(buffer.extract_text(), "");
    type_text(&mut buffer, "ab");
    buffer.delete();
    assert_eq!(buffer.capacity(), 4096);
    assert_eq!(buffer.extract_text(), "ab");
}

#[test]
fn delete_shrinks_storage_that_it_makes_sparse() {
    let mut buffer = GapBuffer::new(8192);
    for _ in 0..2048 {
        buffer.insert('x');
    }
    buffer.move_cursor(0);
    assert_eq!(buffer.capacity(), 8192);
    buffer.delete();
    assert_eq!(buffer.used_size(), 2047);
    assert_eq!(buffer.capacity(), 4094);
    assert_eq!(buffer.cursor(), 0);
    assert_eq!(buffer.gap_end(), 2047);
}

#[test]
fn backspace_at_start_leaves_sparse_storage_alone() {
    let mut buffer = GapBuffer::new(4096);
    buffer.backspace();
    assert_eq!(buffer.capacity(), 4096);
}

#[test]
fn invariants_hold_after_every_step() {
    let mut buffer = GapBuffer::new(4);
    let mut seed: u32 = 12345;
    for _ in 0..20_000 {
        seed = seed.wrapping_mul(1_664_525).wrapping_add(1_013_904_223);
        match (seed >> 24) % 8 {
            0 | 1 | 2 | 3 => buffer.insert('k'),
            4 => buffer.delete(),
            5 => buffer.backspace(),
            _ => buffer.move_cursor(((seed >> 8) % 4000) as usize),
        }
        assert!(buffer.cursor() <= buffer.gap_end());
        assert!(buffer.gap_end() <= buffer.capacity());
        assert!(buffer.capacity() >= MIN_BUF_SIZE);
        assert_eq!(
            buffer.used_size(),
            buffer.cursor() + (buffer.capacity() - buffer.gap_end())
        );
        assert_eq!(buffer.extract_text().len(), buffer.used_size());
    }
}

#[test]
fn round_trip_against_a_plain_string() {
    let mut buffer = GapBuffer::new(4);
    let mut model: Vec<char> = Vec::new();
    let mut cursor: usize = 0;
    let mut seed: u32 = 99;
    for step in 0..6000u32 {
        seed = seed.wrapping_mul(1_664_525).wrapping_add(1_013_904_223);
        match (seed >> 24) % 6 {
            0 | 1 | 2 => {
                let c = char::from_u32('a' as u32 + step % 26).unwrap();
                buffer.insert(c);
                model.insert(cursor, c);
                cursor += 1;
            }
            3 => {
                buffer.delete();
                if cursor < model.len() {
                    model.remove(cursor);
                }
            }
            4 => {
                buffer.backspace();
                if cursor > 0 {
                    model.remove(cursor - 1);
                    cursor -= 1;
                }
            }
            _ => {
                let pos = ((seed >> 8) % 3000) as usize;
                buffer.move_cursor(pos);
                cursor = pos.min(model.len());
            }
        }
        assert_eq!(buffer.cursor(), cursor);
        let expected: String = model.iter().collect();
        assert_eq!(buffer.extract_text(), expected);
    }
}

#[test]
fn typing_copies_less_than_twice_the_text_in_resizes() {
    let mut buffer = GapBuffer::new(4);
    let mut copied: usize = 0;
    let n: usize = 100_000;
    for _ in 0..n {
        let before = buffer.capacity();
        let held = buffer.used_size();
        buffer.insert('x');
        if buffer.capacity() != before {
            assert_eq!(buffer.capacity(), 2 * before);
            copied += held;
        }
    }
    assert_eq!(copied, buffer.capacity() - 1024);
    assert_eq!(copied, 1024 + 2048 + 4096 + 8192 + 16384 + 32768 + 65536);
    assert!(copied <= 2 * n);
}

#[test]
fn typing_arrives_at_the_least_doubling() {
    for (requested, typed, expected) in [
        (4usize, 1usize, 1024usize),
        (4, 1024, 1024),
        (4, 1025, 2048),
        (4, 2048, 2048),
        (4, 2049, 4096),
        (3000, 3000, 3000),
        (3000, 3001, 6000),
        (3000, 12001, 24000),
    ] {
        let mut buffer = GapBuffer::new(requested);
        for _ in 0..typed {
            buffer.insert('x');
        }
        assert_eq!(buffer.capacity(), expected);
        assert_eq!(buffer.used_size(), typed);
    }
}

#[test]
fn alternating_in_the_middle_of_a_full_buffer_resizes_once() {
    let mut buffer = GapBuffer::new(4);
    let mut expected = String::new();
    for i in 0..1024u32 {
        let c = char::from_u32('a' as u32 + i % 26).unwrap();
        buffer.insert(c);
        expected.push(c);
    }
    buffer.move_cursor(300);
    for round in 0..200 {
        buffer.insert('!');
        assert_eq!(buffer.capacity(), 2048);
        buffer.backspace();
        assert_eq!(buffer.capacity(), 2048);
        assert_eq!(buffer.cursor(), 300);
        assert_eq!(buffer.used_size(), 1024);
        if round % 50 == 0 {
            assert_eq!(buffer.extract_text(), expected);
        }
    }
    assert_eq!(buffer.extract_text(), expected);
}

#[test]
fn alternating_at_a_capacity_boundary_resizes_once() {
    let mut buffer = GapBuffer::new(4);
    for _ in 0..1024 {
        buffer.insert('x');
    }
    let mut resizes = 0;
    for _ in 0..500 {
        let before = buffer.capacity();
        buffer.insert('y');
        if buffer.capacity() != before {
            resizes += 1;
        }
        let before = buffer.capacity();
        buffer.backspace();
        if buffer.capacity() != before {
            resizes += 1;
        }
    }
    assert_eq!(resizes, 1);
    assert_eq!(buffer.capacity(), 2048);
    assert_eq!(buffer.used_size(), 1024);
}

#[test]
fn alternating_at_the_shrink_boundary_resizes_once() {
    let mut buffer = GapBuffer::new(8192);
    for _ in 0..2048 {
        buffer.insert('x');
    }
    let mut resizes = 0;
    for _ in 0..500 {
        let before = buffer.capacity();
        buffer.backspace();
        if buffer.capacity() != before {
            resizes += 1;
        }
        let before = buffer.capacity();
        buffer.insert('y');
        if buffer.capacity() != before {
            resizes += 1;
        }
    }
    assert_eq!(resizes, 1);
    assert_eq!(buffer.capacity(), 4094);
}

#[test]
fn extract_text_handles_characters_beyond_ascii() {
    let mut buffer = GapBuffer::new(4);
    type_text(&mut buffer, "héllo→wörld");
    buffer.move_cursor(6);
    buffer.delete();
    assert_eq!(buffer.extract_text(), "héllo→örld");
    assert_eq!(buffer.used_size(), 10);
}
