use strip_whitespace::edit::compute_line_starts;
use strip_whitespace::utf16::Utf16Index;

/// Naive (scan-from-start) conversion of a line-relative byte offset to a UTF-16 column.
fn naive_byte_to_utf16_col(line: &str, rel_byte: usize) -> usize {
    let clamped = rel_byte.min(line.len());
    let mut col = 0usize;
    let mut cur = 0usize;
    while cur < clamped {
        let ch = line[cur..].chars().next().unwrap();
        let next = cur + ch.len_utf8();
        if next <= clamped {
            col += ch.len_utf16();
            cur = next;
        } else {
            break;
        }
    }
    col
}

/// Naive (scan-from-start) conversion of a UTF-16 column to a line-relative byte offset.
fn naive_utf16_col_to_byte(line: &str, utf16_col: usize) -> usize {
    let mut cur_u16 = 0usize;
    let mut cur_byte = 0usize;
    while cur_byte < line.len() {
        let ch = line[cur_byte..].chars().next().unwrap();
        let u16 = ch.len_utf16();
        if cur_u16 + u16 > utf16_col {
            break;
        }
        cur_u16 += u16;
        cur_byte += ch.len_utf8();
        if cur_u16 == utf16_col {
            break;
        }
    }
    cur_byte
}

#[test]
fn ascii_roundtrips() {
    let s = "abc";
    let starts = compute_line_starts(s);
    let idx = Utf16Index::new(s, &starts);

    assert_eq!(idx.byte_to_line_utf16_col(0), (0, 0));
    assert_eq!(idx.byte_to_line_utf16_col(1), (0, 1));
    assert_eq!(idx.byte_to_line_utf16_col(3), (0, 3));

    assert_eq!(idx.line_utf16_col_to_byte(0, 0), Some(0));
    assert_eq!(idx.line_utf16_col_to_byte(0, 2), Some(2));
    assert_eq!(idx.line_utf16_col_to_byte(0, 99), Some(3));
    assert_eq!(idx.line_utf16_col_to_byte(1, 0), None);
}

#[test]
fn japanese_utf8_bytes_map_to_single_utf16_units() {
    let s = "あい";
    let starts = compute_line_starts(s);
    let idx = Utf16Index::new(s, &starts);

    assert_eq!(idx.byte_to_line_utf16_col(0), (0, 0));
    assert_eq!(idx.byte_to_line_utf16_col(3), (0, 1));
    assert_eq!(idx.byte_to_line_utf16_col(6), (0, 2));

    assert_eq!(idx.byte_to_line_utf16_col(1), (0, 0));
    assert_eq!(idx.byte_to_line_utf16_col(4), (0, 1));

    assert_eq!(idx.line_utf16_col_to_byte(0, 0), Some(0));
    assert_eq!(idx.line_utf16_col_to_byte(0, 1), Some(3));
    assert_eq!(idx.line_utf16_col_to_byte(0, 2), Some(6));
}

#[test]
fn emoji_is_two_utf16_units_and_clamps_inside_surrogate_pair() {
    let s = "🙂";
    let starts = compute_line_starts(s);
    let idx = Utf16Index::new(s, &starts);

    assert_eq!(idx.byte_to_line_utf16_col(0), (0, 0));
    assert_eq!(idx.byte_to_line_utf16_col(4), (0, 2));
    assert_eq!(idx.byte_to_line_utf16_col(2), (0, 0));

    assert_eq!(idx.line_utf16_col_to_byte(0, 0), Some(0));
    assert_eq!(idx.line_utf16_col_to_byte(0, 1), Some(0));
    assert_eq!(idx.line_utf16_col_to_byte(0, 2), Some(4));
}

#[test]
fn mixed_ascii_emoji_roundtrips() {
    let s = "a🙂b";
    let starts = compute_line_starts(s);
    let idx = Utf16Index::new(s, &starts);

    assert_eq!(idx.byte_to_line_utf16_col(0), (0, 0));
    assert_eq!(idx.byte_to_line_utf16_col(1), (0, 1));
    assert_eq!(idx.byte_to_line_utf16_col(5), (0, 3));
    assert_eq!(idx.byte_to_line_utf16_col(6), (0, 4));

    assert_eq!(idx.line_utf16_col_to_byte(0, 1), Some(1));
    assert_eq!(idx.line_utf16_col_to_byte(0, 3), Some(5));
    assert_eq!(idx.line_utf16_col_to_byte(0, 4), Some(6));
}

#[test]
fn multi_line_positions() {
    let s = "a🙂\nあb";
    let starts = compute_line_starts(s);
    let idx = Utf16Index::new(s, &starts);

    assert_eq!(starts, vec![0, 6]);

    assert_eq!(idx.byte_to_line_utf16_col(0), (0, 0));
    assert_eq!(idx.byte_to_line_utf16_col(1), (0, 1));
    assert_eq!(idx.byte_to_line_utf16_col(5), (0, 3));
    assert_eq!(idx.byte_to_line_utf16_col(6), (1, 0));

    assert_eq!(idx.line_utf16_col_to_byte(0, 3), Some(5));
    assert_eq!(idx.line_utf16_col_to_byte(1, 0), Some(6));
    assert_eq!(idx.line_utf16_col_to_byte(1, 1), Some(9));
    assert_eq!(idx.line_utf16_col_to_byte(1, 2), Some(10));
}

#[test]
fn crlf_excludes_carriage_return_from_columns() {
    let s = "a🙂\r\nあb";
    let starts = compute_line_starts(s);
    let idx = Utf16Index::new(s, &starts);

    assert_eq!(idx.byte_to_line_utf16_col(5), (0, 3));
    assert_eq!(idx.byte_to_line_utf16_col(6), (0, 3));
    assert_eq!(idx.byte_to_line_utf16_col(7), (1, 0));

    assert_eq!(idx.line_utf16_col_to_byte(0, 99), Some(5));
}

#[test]
fn checkpointed_matches_naive_on_long_mixed_line() {
    let mut line = String::new();
    for _ in 0..200 {
        line.push('a');
        line.push('🙂');
        line.push('あ');
    }
    let s = format!("{line}\nnext");
    let starts = compute_line_starts(&s);
    let idx = Utf16Index::new(&s, &starts);

    let line_end = s.find('\n').unwrap();
    let line_slice = &s[..line_end];
    for rel in [0usize, 1, 2, 3, 4, 5, 10, 63, 64, 65, 256, 999, line_slice.len()] {
        let abs = rel.min(line_slice.len());
        let (_, got) = idx.byte_to_line_utf16_col(abs);
        let want = naive_byte_to_utf16_col(line_slice, abs);
        assert_eq!(got, want, "byte->utf16 mismatch at rel byte {abs}");
    }

    let max_u16 = line_slice.chars().map(|c| c.len_utf16()).sum::<usize>();
    for col in [0usize, 1, 2, 3, 4, 5, 64, 65, 256, 999, max_u16, max_u16 + 10] {
        let got = idx.line_utf16_col_to_byte(0, col).unwrap();
        let want = naive_utf16_col_to_byte(line_slice, col.min(max_u16));
        assert_eq!(got, want, "utf16->byte mismatch at col {col}");
    }
}

#[test]
fn line_for_byte_past_the_end_is_last_line() {
    let s = "ab\ncd";
    let starts = compute_line_starts(s);
    let idx = Utf16Index::new(s, &starts);
    assert_eq!(idx.line_for_byte(0), 0);
    assert_eq!(idx.line_for_byte(2), 0);
    assert_eq!(idx.line_for_byte(3), 1);
    assert_eq!(idx.line_for_byte(100), 1);
    assert_eq!(idx.byte_to_line_utf16_col(100), (1, 2));
}

#[test]
fn empty_input_has_one_empty_line() {
    let s = "";
    let starts = compute_line_starts(s);
    assert_eq!(starts, vec![0]);
    let idx = Utf16Index::new(s, &starts);
    assert_eq!(idx.byte_to_line_utf16_col(0), (0, 0));
    assert_eq!(idx.line_utf16_col_to_byte(0, 5), Some(0));
}

#[test]
fn lone_trailing_carriage_return_stays_in_the_last_line() {
    let s = "a\r";
    let starts = compute_line_starts(s);
    let idx = Utf16Index::new(s, &starts);
    assert_eq!(idx.line_utf16_col_to_byte(0, 99), Some(2));
    assert_eq!(idx.byte_to_line_utf16_col(2), (0, 2));
}
