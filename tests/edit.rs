use strip_whitespace::edit::{
    byte_to_line_col, compute_line_starts, create_sourcemap, line_col_to_byte, rewrite_sourcemap,
    sort_and_dedup_mappings, validate_edits, Edit, Mapping,
};
use strip_whitespace::utf16::Utf16Index;
use strip_whitespace::StripError;

/// Apply a single edit to `input` and return the resulting output.
fn apply_single_edit(input: &str, edit: &Edit) -> String {
    let mut out = input.to_string();
    out.replace_range(edit.start..edit.end, &edit.replacement);
    out
}

fn map_json(builder: sourcemap::SourceMapBuilder) -> String {
    let in_map = builder.into_sourcemap();
    let mut buf = Vec::new();
    in_map.to_writer(&mut buf).unwrap();
    String::from_utf8(buf).unwrap()
}

#[test]
fn create_sourcemap_separates_moved_gt_and_next_lt() {
    let input = "<a>\n<b>";
    let edit = Edit {
        start: 2,
        end: 4,
        replacement: "\n>".to_string(),
        output_byte_to_input_byte: vec![Some(3), Some(2)],
        moved_delim_len: 1,
    };
    let output = apply_single_edit(input, &edit);
    assert_eq!(output, "<a\n><b>");

    let sm_json = create_sourcemap(input, &output, "input.astro", &[edit]).unwrap();
    let sm = sourcemap::SourceMap::from_slice(sm_json.as_bytes()).unwrap();

    let t_gt = sm.lookup_token(1, 0).expect("token for moved '>'");
    assert_eq!(t_gt.get_source(), Some("input.astro"));
    assert_eq!(t_gt.get_src_line(), 0);
    assert_eq!(t_gt.get_src_col(), 2);

    let t_lt = sm.lookup_token(1, 1).expect("token for '<'");
    assert_eq!(t_lt.get_source(), Some("input.astro"));
    assert_eq!(t_lt.get_src_line(), 1);
    assert_eq!(t_lt.get_src_col(), 0);
}

#[test]
fn create_sourcemap_separates_moved_comment_end_and_next_lt() {
    let input = "<!--c-->\n<span>";
    let start = input.find("-->").unwrap();
    let end = start + 4;
    let edit = Edit {
        start,
        end,
        replacement: "\n-->".to_string(),
        output_byte_to_input_byte: vec![
            Some(start + 3),
            Some(start),
            Some(start + 1),
            Some(start + 2),
        ],
        moved_delim_len: 3,
    };
    let output = apply_single_edit(input, &edit);
    assert!(output.contains("--><span>"));

    let sm_json = create_sourcemap(input, &output, "input.astro", &[edit]).unwrap();
    let sm = sourcemap::SourceMap::from_slice(sm_json.as_bytes()).unwrap();

    let boundary = output.find("--><").unwrap();
    let out_gt = boundary + 2;
    let out_lt = boundary + 3;

    let out_starts = compute_line_starts(&output);
    let out_utf16 = Utf16Index::new(&output, &out_starts);
    let (gt_line, gt_col) = out_utf16.byte_to_line_utf16_col(out_gt);
    let (lt_line, lt_col) = out_utf16.byte_to_line_utf16_col(out_lt);

    let t_gt = sm
        .lookup_token(gt_line as u32, gt_col as u32)
        .expect("token for '>'");
    assert_eq!(t_gt.get_source(), Some("input.astro"));
    assert_eq!(t_gt.get_src_line(), 0);
    assert_eq!(t_gt.get_src_col(), 7);

    let t_lt = sm
        .lookup_token(lt_line as u32, lt_col as u32)
        .expect("token for '<'");
    assert_eq!(t_lt.get_source(), Some("input.astro"));
    assert_eq!(t_lt.get_src_line(), 1);
    assert_eq!(t_lt.get_src_col(), 0);
}

#[test]
fn rewrite_sourcemap_separates_moved_gt_and_next_lt() {
    let input = "<a>\n<b>";
    let edit = Edit {
        start: 2,
        end: 4,
        replacement: "\n>".to_string(),
        output_byte_to_input_byte: vec![Some(3), Some(2)],
        moved_delim_len: 1,
    };
    let output = apply_single_edit(input, &edit);

    let mut builder = sourcemap::SourceMapBuilder::new(None);
    builder.add_source("orig.astro");
    builder.add(0, 2, 10, 20, Some("orig.astro"), None, false);
    builder.add(1, 0, 10, 100, Some("orig.astro"), None, false);
    let in_map_json = map_json(builder);

    let out_map_json = rewrite_sourcemap(input, &output, &in_map_json, &[edit]).unwrap();
    let out_map = sourcemap::SourceMap::from_slice(out_map_json.as_bytes()).unwrap();

    let t_gt = out_map.lookup_token(1, 0).expect("token for moved '>'");
    assert_eq!(t_gt.get_source(), Some("orig.astro"));
    assert_eq!(t_gt.get_src_line(), 10);
    assert_eq!(t_gt.get_src_col(), 20);

    let t_lt = out_map.lookup_token(1, 1).expect("token for '<'");
    assert_eq!(t_lt.get_source(), Some("orig.astro"));
    assert_eq!(t_lt.get_src_line(), 10);
    assert_eq!(t_lt.get_src_col(), 100);
}

#[test]
fn compute_line_starts_basic() {
    let s = "a\nbc\nd\n";
    assert_eq!(compute_line_starts(s), vec![0, 2, 5, 7]);
}

#[test]
fn compute_line_starts_no_trailing_newline() {
    let s = "a\nb";
    assert_eq!(compute_line_starts(s), vec![0, 2]);
}

#[test]
fn line_col_to_byte_in_range() {
    let s = "ab\ncde\nf";
    let starts = compute_line_starts(s);
    assert_eq!(line_col_to_byte(&starts, 0, 0), Some(0));
    assert_eq!(line_col_to_byte(&starts, 0, 1), Some(1));
    assert_eq!(line_col_to_byte(&starts, 1, 0), Some(3));
    assert_eq!(line_col_to_byte(&starts, 1, 1), Some(4));
    assert_eq!(line_col_to_byte(&starts, 1, 2), Some(5));
    assert_eq!(line_col_to_byte(&starts, 2, 0), Some(7));
}

#[test]
fn line_col_to_byte_out_of_range_line() {
    let s = "a\n";
    let starts = compute_line_starts(s);
    assert_eq!(line_col_to_byte(&starts, 2, 0), None);
}

#[test]
fn byte_to_line_col_roundtrip_at_line_starts() {
    let s = "ab\ncd\nefg\nhij\n";
    let starts = compute_line_starts(s);
    for (line, &byte) in starts.iter().enumerate() {
        let (l, c) = byte_to_line_col(&starts, byte);
        assert_eq!((l, c), (line, 0));
    }
}

#[test]
fn byte_to_line_col_middle_of_line() {
    let s = "ab\ncde\nf";
    let starts = compute_line_starts(s);
    assert_eq!(byte_to_line_col(&starts, 0), (0, 0));
    assert_eq!(byte_to_line_col(&starts, 1), (0, 1));
    assert_eq!(byte_to_line_col(&starts, 2), (0, 2));
    assert_eq!(byte_to_line_col(&starts, 3), (1, 0));
    assert_eq!(byte_to_line_col(&starts, 4), (1, 1));
    assert_eq!(byte_to_line_col(&starts, 5), (1, 2));
    assert_eq!(byte_to_line_col(&starts, 6), (1, 3));
    assert_eq!(byte_to_line_col(&starts, 7), (2, 0));
    assert_eq!(byte_to_line_col(&starts, 8), (2, 1));
    assert_eq!(byte_to_line_col(&starts, 9), (2, 2));
    assert_eq!(byte_to_line_col(&starts, 100), (2, 93));
}

#[test]
fn rewrite_sourcemap_handles_unmapped_input_tokens() {
    let input = "<a>\n<b>";
    let edit = Edit {
        start: 2,
        end: 4,
        replacement: "\n>".to_string(),
        output_byte_to_input_byte: vec![Some(3), Some(2)],
        moved_delim_len: 1,
    };
    let output = apply_single_edit(input, &edit);

    let mut builder = sourcemap::SourceMapBuilder::new(None);
    builder.add(0, 0, u32::MAX, u32::MAX, None, None, false);
    let in_map_json = map_json(builder);

    let out_map_json = rewrite_sourcemap(input, &output, &in_map_json, &[edit]).unwrap();
    let out_map = sourcemap::SourceMap::from_slice(out_map_json.as_bytes()).unwrap();

    let t = out_map.lookup_token(0, 0).expect("unmapped token");
    assert_eq!(t.get_source(), None);
    assert_eq!(t.get_src_line(), u32::MAX);
    assert_eq!(t.get_src_col(), u32::MAX);
}

#[test]
fn sort_and_dedup_mappings_prefers_mapped_over_unmapped() {
    let mut mappings = vec![
        Mapping {
            dst_line: 1,
            dst_col: 1,
            src_line: u32::MAX,
            src_col: u32::MAX,
            source: None,
            name: None,
        },
        Mapping {
            dst_line: 1,
            dst_col: 1,
            src_line: 3,
            src_col: 4,
            source: Some("orig.astro"),
            name: None,
        },
    ];

    sort_and_dedup_mappings(&mut mappings);
    assert_eq!(mappings.len(), 1);
    assert_eq!(mappings[0].source, Some("orig.astro"));
    assert_eq!(mappings[0].src_line, 3);
    assert_eq!(mappings[0].src_col, 4);
}

#[test]
fn create_sourcemap_marks_inserted_bytes_unmapped() {
    let input = "ab";
    let edit = Edit {
        start: 1,
        end: 1,
        replacement: "X".to_string(),
        output_byte_to_input_byte: vec![None],
        moved_delim_len: 0,
    };
    let output = apply_single_edit(input, &edit);
    assert_eq!(output, "aXb");

    let sm_json = create_sourcemap(input, &output, "input.astro", &[edit]).unwrap();
    let sm = sourcemap::SourceMap::from_slice(sm_json.as_bytes()).unwrap();

    let t = sm.lookup_token(0, 1).expect("token for inserted byte");
    assert_eq!(t.get_source(), None);
    assert_eq!(t.get_src_line(), u32::MAX);
    assert_eq!(t.get_src_col(), u32::MAX);
}

#[test]
fn validate_edits_rejects_overlap() {
    let edits = vec![
        Edit {
            start: 1,
            end: 3,
            replacement: "".to_string(),
            output_byte_to_input_byte: Vec::new(),
            moved_delim_len: 0,
        },
        Edit {
            start: 2,
            end: 4,
            replacement: "".to_string(),
            output_byte_to_input_byte: Vec::new(),
            moved_delim_len: 0,
        },
    ];

    let err = validate_edits(10, &edits).unwrap_err();
    assert!(matches!(err, StripError::OverlappingEdits { .. }));
}

#[test]
fn create_sourcemap_uses_utf16_columns_for_unicode_prefix() {
    let input = "あ🙂<a>\n<b>";
    let start = input.find(">\n").unwrap();
    let end = start + 2;
    let edit = Edit {
        start,
        end,
        replacement: "\n>".to_string(),
        output_byte_to_input_byte: vec![Some(start + 1), Some(start)],
        moved_delim_len: 1,
    };
    let output = apply_single_edit(input, &edit);
    assert_eq!(output, "あ🙂<a\n><b>");

    let sm_json = create_sourcemap(input, &output, "input.astro", &[edit]).unwrap();
    let sm = sourcemap::SourceMap::from_slice(sm_json.as_bytes()).unwrap();

    let mut found = false;
    for t in sm.tokens() {
        if t.get_dst_line() == 0
            && t.get_dst_col() == 5
            && t.get_source() == Some("input.astro")
            && t.get_src_line() == 0
            && t.get_src_col() == 6
        {
            found = true;
            break;
        }
    }
    assert!(found, "expected a UTF-16 column anchor at line 0 col 5");
}

#[test]
fn rewrite_sourcemap_accepts_utf16_input_columns_with_unicode() {
    let input = "あ🙂<a>\n<b>";
    let start = input.find(">\n").unwrap();
    let end = start + 2;
    let edit = Edit {
        start,
        end,
        replacement: "\n>".to_string(),
        output_byte_to_input_byte: vec![Some(start + 1), Some(start)],
        moved_delim_len: 1,
    };
    let output = apply_single_edit(input, &edit);

    let mut builder = sourcemap::SourceMapBuilder::new(None);
    builder.add_source("orig.astro");
    builder.add(0, 5, 10, 20, Some("orig.astro"), None, false);
    builder.add(1, 0, 10, 100, Some("orig.astro"), None, false);
    let in_map_json = map_json(builder);

    let out_map_json = rewrite_sourcemap(input, &output, &in_map_json, &[edit]).unwrap();
    let out_map = sourcemap::SourceMap::from_slice(out_map_json.as_bytes()).unwrap();

    let t_gt = out_map.lookup_token(1, 0).expect("token for moved '>'");
    assert_eq!(t_gt.get_source(), Some("orig.astro"));
    assert_eq!(t_gt.get_src_line(), 10);
    assert_eq!(t_gt.get_src_col(), 20);

    let t_lt = out_map.lookup_token(1, 1).expect("token for '<'");
    assert_eq!(t_lt.get_source(), Some("orig.astro"));
    assert_eq!(t_lt.get_src_line(), 10);
    assert_eq!(t_lt.get_src_col(), 100);
}

#[test]
fn validate_edits_error_variants() {
    let e = |start: usize, end: usize, repl: &str, origins: Vec<Option<usize>>, moved: usize| Edit {
        start,
        end,
        replacement: repl.to_string(),
        output_byte_to_input_byte: origins,
        moved_delim_len: moved,
    };
    assert!(validate_edits(10, &[]).is_ok());
    assert!(validate_edits(10, &[e(1, 3, "ab", vec![Some(2), Some(1)], 1), e(3, 4, "", vec![], 0)]).is_ok());
    assert!(matches!(
        validate_edits(10, &[e(3, 1, "", vec![], 0)]),
        Err(StripError::InvalidEdit(_))
    ));
    assert!(matches!(
        validate_edits(10, &[e(1, 11, "", vec![], 0)]),
        Err(StripError::InvalidEdit(_))
    ));
    assert!(matches!(
        validate_edits(10, &[e(1, 2, "ab", vec![None], 0)]),
        Err(StripError::InvalidEdit(_))
    ));
    assert!(matches!(
        validate_edits(10, &[e(1, 2, "a", vec![None], 2)]),
        Err(StripError::InvalidEdit(_))
    ));
    assert!(matches!(
        validate_edits(10, &[e(1, 2, "a", vec![Some(10)], 0)]),
        Err(StripError::InvalidEdit(_))
    ));
    match validate_edits(10, &[e(1, 5, "", vec![], 0), e(4, 6, "", vec![], 0)]) {
        Err(StripError::OverlappingEdits { a_start, a_end, b_start, b_end }) => {
            assert_eq!((a_start, a_end, b_start, b_end), (1, 5, 4, 6));
        }
        _ => panic!("expected an overlap"),
    }
}

#[test]
fn rewrite_sourcemap_rejects_malformed_upstream_map() {
    let r = rewrite_sourcemap("ab", "ab", "{", &[]);
    assert!(matches!(r, Err(StripError::SourceMap(_))));
}

#[test]
fn rewrite_sourcemap_drops_tokens_of_deleted_bytes() {
    // "abc" -> "ac": the edit replaces "b" with nothing.
    let input = "abc";
    let edit = Edit {
        start: 1,
        end: 2,
        replacement: "".to_string(),
        output_byte_to_input_byte: vec![],
        moved_delim_len: 0,
    };
    let output = apply_single_edit(input, &edit);
    let mut builder = sourcemap::SourceMapBuilder::new(None);
    builder.add_source("orig.astro");
    builder.add(0, 1, 7, 7, Some("orig.astro"), None, false);
    builder.add(0, 2, 8, 8, Some("orig.astro"), None, false);
    let in_map_json = map_json(builder);
    let out_json = rewrite_sourcemap(input, &output, &in_map_json, &[edit]).unwrap();
    let out_map = sourcemap::SourceMap::from_slice(out_json.as_bytes()).unwrap();
    let toks: Vec<(u32, u32, u32, u32)> = out_map
        .tokens()
        .map(|t| (t.get_dst_line(), t.get_dst_col(), t.get_src_line(), t.get_src_col()))
        .collect();
    assert_eq!(toks, vec![(0, 1, 8, 8)]);
}

#[test]
fn create_sourcemap_is_json_with_the_source_name() {
    let sm_json = create_sourcemap("a\nb", "a\nb", "file.astro", &[]).unwrap();
    let v: serde_json::Value = serde_json::from_str(&sm_json).unwrap();
    assert_eq!(v["version"], serde_json::Value::from(3));
    assert_eq!(v["sources"][0], serde_json::Value::from("file.astro"));
    assert_eq!(v["sourcesContent"][0], serde_json::Value::from("a\nb"));
}

#[test]
fn rewrite_sourcemap_rejects_range_tokens() {
    let input = "<a>\n<b>";
    let edit = Edit {
        start: 2,
        end: 4,
        replacement: "\n>".to_string(),
        output_byte_to_input_byte: vec![Some(3), Some(2)],
        moved_delim_len: 1,
    };
    let output = apply_single_edit(input, &edit);
    let mut builder = sourcemap::SourceMapBuilder::new(None);
    builder.add_source("orig.astro");
    builder.add(0, 2, 10, 20, Some("orig.astro"), None, true);
    builder.add(1, 0, 10, 100, Some("orig.astro"), None, false);
    let in_map_json = map_json(builder);
    let r = rewrite_sourcemap(input, &output, &in_map_json, &[edit]);
    assert!(matches!(r, Err(StripError::SourceMap(_))));
}
