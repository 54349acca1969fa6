use strip_whitespace::cst::{Cst, CstNode, NodeKind};
use strip_whitespace::strip::{
    collect_edits, contains_blank_line, rotate_delim_over_gap, rotate_prefix_over_gap,
    strip_astro_whitespace, strip_astro_whitespace_no_sourcemap, StripConfig, TrailingDelim,
};
use strip_whitespace::StripError;

fn node(nodes: &mut Vec<CstNode>, parent: Option<usize>, kind: NodeKind, start: usize, end: usize) -> usize {
    nodes.push(CstNode { kind, start_byte: start, end_byte: end, named_children: Vec::new() });
    let id = nodes.len() - 1;
    if let Some(p) = parent {
        nodes[p].named_children.push(id);
    }
    id
}

fn name_end(b: &[u8], mut i: usize) -> usize {
    while i < b.len() && (b[i].is_ascii_alphanumeric() || b[i] == b'-') {
        i += 1;
    }
    i
}

/// Builds the tree that the template grammar gives for the small inputs of these tests: a
/// document of elements (a start and an end tag, or a self-closing tag, each with a tag name),
/// text (without surrounding whitespace), comments and interpolations.
fn parse(src: &str) -> Cst {
    let b = src.as_bytes();
    let mut nodes: Vec<CstNode> = Vec::new();
    let root = node(&mut nodes, None, NodeKind::Document, 0, b.len());
    let mut stack = vec![root];
    let mut i = 0;
    while i < b.len() {
        let top = *stack.last().unwrap();
        if b[i..].starts_with(b"<!--") {
            let end = i + 4 + src[i + 4..].find("-->").unwrap() + 3;
            node(&mut nodes, Some(top), NodeKind::Comment, i, end);
            i = end;
        } else if b[i..].starts_with(b"</") {
            let ne = name_end(b, i + 2);
            let gt = i + src[i..].find('>').unwrap();
            let el = stack.pop().unwrap();
            let tag = node(&mut nodes, Some(el), NodeKind::EndTag, i, gt + 1);
            node(&mut nodes, Some(tag), NodeKind::TagName, i + 2, ne);
            nodes[el].end_byte = gt + 1;
            i = gt + 1;
        } else if b[i] == b'<' {
            let ne = name_end(b, i + 1);
            let gt = i + src[i..].find('>').unwrap();
            if b[gt - 1] == b'/' {
                let el = node(&mut nodes, Some(top), NodeKind::Element, i, gt + 1);
                let tag = node(&mut nodes, Some(el), NodeKind::SelfClosingTag, i, gt + 1);
                node(&mut nodes, Some(tag), NodeKind::TagName, i + 1, ne);
            } else {
                let el = node(&mut nodes, Some(top), NodeKind::Element, i, b.len());
                let tag = node(&mut nodes, Some(el), NodeKind::StartTag, i, gt + 1);
                node(&mut nodes, Some(tag), NodeKind::TagName, i + 1, ne);
                stack.push(el);
            }
            i = gt + 1;
        } else if b[i] == b'{' {
            let end = i + src[i..].find('}').unwrap() + 1;
            node(&mut nodes, Some(top), NodeKind::HtmlInterpolation, i, end);
            i = end;
        } else if src[i..].chars().next().unwrap().is_whitespace() {
            i += src[i..].chars().next().unwrap().len_utf8();
        } else {
            let mut j = i;
            while j < b.len() && b[j] != b'<' && b[j] != b'{' {
                j += 1;
            }
            let e = i + src[i..j].trim_end().len();
            node(&mut nodes, Some(top), NodeKind::Text, i, e);
            i = j;
        }
    }
    Cst { nodes }
}

fn strip(src: &str) -> String {
    let tree = parse(src);
    strip_astro_whitespace_no_sourcemap(src, Some(&tree), &StripConfig::default()).unwrap()
}

fn strip_cfg(src: &str, preserve_blank_lines: bool) -> String {
    let cfg = StripConfig { preserve_blank_lines };
    let tree = parse(src);
    strip_astro_whitespace_no_sourcemap(src, Some(&tree), &cfg).unwrap()
}

fn assert_is_permutation(map: &[usize]) {
    let mut v = map.to_vec();
    v.sort_unstable();
    v.dedup();
    assert_eq!(v, (0..map.len()).collect::<Vec<_>>());
}

#[test]
fn rotates_gt_over_newline_only() {
    let (out, map) = rotate_delim_over_gap(TrailingDelim::Gt, "\n");
    assert_eq!(out, "\n>");
    assert_eq!(map.len(), 2);
    assert_is_permutation(&map);
}

#[test]
fn rotates_gt_over_newline_and_indent_with_filler() {
    let (out, map) = rotate_delim_over_gap(TrailingDelim::Gt, "\n  ");
    assert_eq!(out, " \n >");
    assert_eq!(map.len(), 4);
    assert_is_permutation(&map);
}

#[test]
fn rotates_comment_end_over_newline_and_indent_with_filler() {
    let (out, map) = rotate_delim_over_gap(TrailingDelim::CommentEnd, "\n  ");
    assert_eq!(out, " \n -->");
    assert_eq!(map.len(), 6);
    assert_is_permutation(&map);
}

#[test]
fn rotates_slash_gt_over_newline_and_indent_with_two_fillers() {
    let (out, map) = rotate_delim_over_gap(TrailingDelim::SlashGt, "\n  ");
    assert_eq!(out, "  \n/>");
    assert_eq!(map.len(), 5);
    assert_is_permutation(&map);
}

#[test]
fn emits_sourcemap_without_input() {
    let src = "<div>\n  <span>ok</span>\n</div>\n";
    let tree = parse(src);
    let res = strip_astro_whitespace(src, Some(&tree), "input.astro", &StripConfig::default()).unwrap();
    let sm = sourcemap::SourceMap::from_slice(res.sourcemap.as_bytes()).unwrap();
    assert_eq!(sm.get_source(0), Some("input.astro"));
}

#[test]
fn rotates_prefix_left_over_gap() {
    let (out, map) = rotate_prefix_over_gap("{", "\n  ");
    assert_eq!(out, "{\n  ");
    assert_eq!(map.len(), 4);
    assert_is_permutation(&map);
}

#[test]
fn contains_blank_line_lf_and_crlf() {
    assert!(contains_blank_line("\n\n"));
    assert!(contains_blank_line(" \n\n  "));
    assert!(contains_blank_line("\r\n\r\n"));
    assert!(!contains_blank_line("\n  \n"));
}

#[test]
fn rewrite_rotates_gt_before_text_with_indent_steal() {
    assert_eq!(strip("<span>\n  text</span>"), "<span \n >text</span>");
}

#[test]
fn rewrite_rotates_gt_before_text_without_indent() {
    assert_eq!(strip("<span>\ntext</span>"), "<span\n>text</span>");
}

#[test]
fn rewrite_rotates_rbrace_before_next_node() {
    assert_eq!(strip("{a}\n  <b/>"), "{a \n }<b/>");
}

#[test]
fn rewrite_rotates_comment_end_before_next_node() {
    let out = strip("<!--c-->\n  <span/>");
    assert!(out.contains("--><span"));
    assert!(out.contains("-->"));
}

#[test]
fn rewrite_rotates_tag_prefix_left_after_text() {
    assert_eq!(strip("hi\n  <span/>"), "hi<span\n  />");
}

#[test]
fn rewrite_rotates_comment_prefix_left_after_text() {
    assert_eq!(strip("hi\n  <!--c-->"), "hi<!--\n  c-->");
}

#[test]
fn rewrite_rotates_interpolation_prefix_left_after_text() {
    assert_eq!(strip("hi\n  {a}"), "hi{\n  a}");
}

#[test]
fn rewrite_does_not_preserve_blank_line_gaps_by_default() {
    let src = "<a></a>\n\n<b/>";
    assert_ne!(strip(src), src);
    let src_crlf = "<a></a>\r\n\r\n<b/>";
    assert_ne!(strip(src_crlf), src_crlf);
}

#[test]
fn rewrite_preserves_blank_line_gaps_with_config() {
    let src = "<a></a>\n\n<b/>";
    assert_eq!(strip_cfg(src, true), src);
    let src_crlf = "<a></a>\r\n\r\n<b/>";
    assert_eq!(strip_cfg(src_crlf, true), src_crlf);
}

#[test]
fn rewrite_does_not_touch_whitespace_inside_interpolation_expression() {
    let src = "{ a +  b }";
    assert_eq!(strip(src), src);
}

#[test]
fn end_tag_then_start_tag() {
    assert_eq!(strip("<a>x</a>\n  <b></b>"), "<a>x</a \n ><b></b>");
}

#[test]
fn end_tag_then_self_closing_tag() {
    assert_eq!(strip("<a>x</a>\n  <b/>"), "<a>x</a \n ><b/>");
}

#[test]
fn end_tag_then_start_interpolation() {
    assert_eq!(strip("<a>x</a>\n  {b}"), "<a>x</a \n >{b}");
}

#[test]
fn end_tag_then_text() {
    assert_eq!(strip("<a>x</a>\n  text"), "<a>x</a \n >text");
}

#[test]
fn self_closing_tag_then_start_tag() {
    assert_eq!(strip("<a/>\n  <b>y</b>"), "<a  \n/><b>y</b>");
}

#[test]
fn self_closing_tag_then_self_closing_tag() {
    assert_eq!(strip("<a/>\n  <b/>"), "<a  \n/><b/>");
}

#[test]
fn self_closing_tag_then_start_interpolation() {
    assert_eq!(strip("<a/>\n  {b}"), "<a  \n/>{b}");
}

#[test]
fn self_closing_tag_then_text() {
    assert_eq!(strip("<a/>\n  text"), "<a  \n/>text");
}

#[test]
fn end_interpolation_then_start_tag() {
    assert_eq!(strip("{a}\n  <b>y</b>"), "{a \n }<b>y</b>");
}

#[test]
fn end_interpolation_then_self_closing_tag() {
    assert_eq!(strip("{a}\n  <b/>"), "{a \n }<b/>");
}

#[test]
fn end_interpolation_then_start_interpolation() {
    assert_eq!(strip("{a}\n  {b}"), "{a \n }{b}");
}

#[test]
fn end_interpolation_then_text() {
    assert_eq!(strip("{a}\n  text"), "{a \n }text");
}

#[test]
fn text_then_start_tag() {
    assert_eq!(strip("hi\n  <b>y</b>"), "hi<b\n  >y</b>");
}

#[test]
fn text_then_self_closing_tag() {
    assert_eq!(strip("hi\n  <b/>"), "hi<b\n  />");
}

#[test]
fn text_then_text_do_not_strip() {
    let src = "hi\n  there";
    assert_eq!(strip(src), src);
}

#[test]
fn stripping_twice_changes_nothing_more() {
    for src in [
        "<span>\n  text</span>",
        "{a}\n  <b/>",
        "<a/>\n  <b/>",
        "hi\n  <span/>",
        "<div>\n  <span>ok</span>\n</div>\n",
    ] {
        let once = strip(src);
        assert_eq!(strip(&once), once, "not idempotent: {src}");
    }
}

#[test]
fn edits_keep_the_bytes_of_their_span_and_point_at_them() {
    let src = "<div>\n  <span>ok</span>\n  hi\n  <b/>\n</div>\n";
    let tree = parse(src);
    let edits = collect_edits(src, &tree, &StripConfig::default());
    assert!(!edits.is_empty());
    for w in edits.windows(2) {
        assert!(w[0].end <= w[1].start);
    }
    for e in &edits {
        let mut a: Vec<u8> = e.replacement.as_bytes().to_vec();
        let mut b: Vec<u8> = src.as_bytes()[e.start..e.end].to_vec();
        a.sort_unstable();
        b.sort_unstable();
        assert_eq!(a, b);
        for (j, o) in e.output_byte_to_input_byte.iter().enumerate() {
            let o = o.unwrap();
            assert!(e.start <= o && o < e.end);
            assert_eq!(e.replacement.as_bytes()[j], src.as_bytes()[o]);
        }
    }
}

#[test]
fn sourcemap_is_valid_json_naming_the_source() {
    let src = "<div>\n  <span>ok</span>\n</div>\n";
    let tree = parse(src);
    let res = strip_astro_whitespace(src, Some(&tree), "page.astro", &StripConfig::default()).unwrap();
    assert_eq!(res.code, "<div \n ><span>ok</span\n></div>\n");
    let v: serde_json::Value = serde_json::from_str(&res.sourcemap).unwrap();
    assert_eq!(v["sources"][0], serde_json::Value::from("page.astro"));
    let sm = sourcemap::SourceMap::from_slice(res.sourcemap.as_bytes()).unwrap();
    // The moved '>' of <div> sits at line 1, column 1 and maps back to line 0, column 4.
    let t = sm.lookup_token(1, 1).unwrap();
    assert_eq!((t.get_src_line(), t.get_src_col()), (0, 4));
}

#[test]
fn missing_tree_is_parse_failed() {
    let r = strip_astro_whitespace_no_sourcemap("<a/>", None, &StripConfig::default());
    assert!(matches!(r, Err(StripError::ParseFailed)));
    let r = strip_astro_whitespace("<a/>", None, "a.astro", &StripConfig::default());
    assert!(matches!(r, Err(StripError::ParseFailed)));
}

#[test]
fn overlapping_tree_spans_are_reported() {
    // A tree whose siblings overlap yields a '>' rotation over [2, 4) and a prefix rotation
    // over [3, 6).
    let src = "<a>\n<b>";
    let mut nodes: Vec<CstNode> = Vec::new();
    let root = node(&mut nodes, None, NodeKind::Document, 0, src.len());
    node(&mut nodes, Some(root), NodeKind::StartTag, 0, 3);
    let b = node(&mut nodes, Some(root), NodeKind::StartTag, 4, 7);
    node(&mut nodes, Some(b), NodeKind::TagName, 5, 6);
    node(&mut nodes, Some(root), NodeKind::Text, 0, 3);
    nodes[root].named_children.push(b);
    let tree = Cst { nodes };
    let r = strip_astro_whitespace_no_sourcemap(src, Some(&tree), &StripConfig::default());
    match r {
        Err(StripError::OverlappingEdits { a_start, a_end, b_start, b_end }) => {
            assert_eq!((a_start, a_end, b_start, b_end), (2, 4, 3, 6));
        }
        _ => panic!("expected overlapping edits"),
    }
}

#[test]
fn repeated_sibling_pair_gives_one_edit() {
    let src = "<a>\n<b>";
    let mut nodes: Vec<CstNode> = Vec::new();
    let root = node(&mut nodes, None, NodeKind::Document, 0, src.len());
    node(&mut nodes, Some(root), NodeKind::StartTag, 0, 3);
    node(&mut nodes, Some(root), NodeKind::StartTag, 4, 7);
    node(&mut nodes, Some(root), NodeKind::StartTag, 0, 3);
    node(&mut nodes, Some(root), NodeKind::StartTag, 4, 7);
    let tree = Cst { nodes };
    let edits = collect_edits(src, &tree, &StripConfig::default());
    assert_eq!(edits.len(), 1);
    let r = strip_astro_whitespace_no_sourcemap(src, Some(&tree), &StripConfig::default());
    assert_eq!(r.unwrap(), "<a\n><b>");
}

#[test]
fn unicode_whitespace_gap_is_rotated() {
    // U+3000 IDEOGRAPHIC SPACE is whitespace; the gap moves whole.
    let src = "<a/>\u{3000}<b/>";
    assert_eq!(strip(src), "<a\u{3000}/><b/>");
}

#[test]
fn nested_ordered_spans_do_not_rule_out_overlap() {
    // Children lie inside their parents and siblings are ordered and disjoint, yet the tag name
    // of `<b/>` is given the span of "b/>": the prefix rotation left over [2, 7) and the `/>`
    // rotation right over [5, 8) overlap.
    let src = "hi\n<b/>\nx";
    let mut nodes: Vec<CstNode> = Vec::new();
    let root = node(&mut nodes, None, NodeKind::Document, 0, src.len());
    node(&mut nodes, Some(root), NodeKind::Text, 0, 2);
    let el = node(&mut nodes, Some(root), NodeKind::Element, 3, 7);
    let tag = node(&mut nodes, Some(el), NodeKind::SelfClosingTag, 3, 7);
    node(&mut nodes, Some(tag), NodeKind::TagName, 4, 7);
    node(&mut nodes, Some(root), NodeKind::Text, 8, 9);
    let tree = Cst { nodes };
    let r = strip_astro_whitespace_no_sourcemap(src, Some(&tree), &StripConfig::default());
    match r {
        Err(StripError::OverlappingEdits { a_start, a_end, b_start, b_end }) => {
            assert_eq!((a_start, a_end, b_start, b_end), (2, 7, 5, 8));
        }
        _ => panic!("expected overlapping edits"),
    }
}
