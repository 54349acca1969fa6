//! Whitespace stripping by rotation.
//!
//! A gap is the byte range between two adjacent named children of a container node (`document`
//! or `element`) when it is all whitespace. Rather than deleting it, the rewriter rotates a small
//! token across it:
//!
//! 1. A trailing delimiter of the previous node (`>`, `/>`, `-->`, `}`) moves to the end of the
//!    gap, right before the next node. Up to one space or tab (two for `/>`) at the end of the
//!    gap's last line moves before the gap, so the next node keeps its column.
//! 2. Otherwise, after a `text` node, an opener prefix of the next node (`{`, `<!--`, `<tag`,
//!    `</tag`) moves to the start of the gap, next to the text.
//!
//! Whitespace inside `{ ... }` interpolations is never touched: an interpolation is not a
//! container. Every edit records, for each of its bytes, the input byte it came from.
use crate::cst::{Cst, CstNode, NodeKind};
use crate::edit::{edit_ok_at, valid_edits, validate_edits, Edit};
use crate::StripError;
use vstd::multiset::Multiset;
use vstd::prelude::*;
use vstd::string::StringSliceAdditionalSpecFns;
use vstd::utf8::*;

verus! {

broadcast use vstd::seq_lib::group_to_multiset_ensures;

proof fn lemma_encode_concat(a: Seq<char>, b: Seq<char>)
    ensures
        encode_utf8(a + b) == encode_utf8(a) + encode_utf8(b),
    decreases a.len(),
{
    if a.len() == 0 {
        assert(a + b =~= b);
        assert(encode_utf8(a) + encode_utf8(b) =~= encode_utf8(b));
    } else {
        lemma_encode_concat(a.drop_first(), b);
        assert((a + b).drop_first() =~= a.drop_first() + b);
        let head = encode_scalar(a[0] as u32);
        assert(head + (encode_utf8(a.drop_first()) + encode_utf8(b)) =~= (head + encode_utf8(
            a.drop_first(),
        )) + encode_utf8(b));
    }
}

/// The bytes `[a, b)` of `s`, when both ends are character boundaries.
fn substr(s: &str, a: usize, b: usize) -> (r: &str)
    requires
        a <= b <= s.spec_bytes().len(),
        is_char_boundary(s.spec_bytes(), a as int),
        is_char_boundary(s.spec_bytes(), b as int),
    ensures
        r.spec_bytes() == s.spec_bytes().subrange(a as int, b as int),
{
    broadcast use vstd::utf8::group_utf8_lib;

    let ghost bytes = s.spec_bytes();
    let (_, rest) = s.split_at(a);
    let ghost rb = rest.spec_bytes();
    proof {
        assert(rb == bytes.subrange(a as int, bytes.len() as int));
        encode_utf8_valid_utf8(s@);
        valid_utf8_split(bytes, a as int);
        if b < bytes.len() {
            assert(rb[b - a] == bytes[b as int]);
            is_char_boundary_iff_is_leading_byte(bytes, b as int);
            is_char_boundary_iff_is_leading_byte(rb, (b - a) as int);
            assert(is_char_boundary(rb, (b - a) as int));
        } else {
            assert(is_char_boundary(rb, rb.len() as int));
        }
    }
    let (mid, _) = rest.split_at(b - a);
    assert(mid.spec_bytes() =~= bytes.subrange(a as int, b as int));
    mid
}

/// A delimiter that can end a node and rotate across a gap.
#[derive(Debug, Clone, Copy, PartialEq, Eq, Structural)]
pub enum TrailingDelim {
    /// `>`, ending a start or end tag.
    Gt,
    /// `/>`, ending a self-closing tag.
    SlashGt,
    /// `-->`, ending a comment.
    CommentEnd,
    /// `}`, ending an interpolation.
    RBrace,
}

impl TrailingDelim {
    /// The delimiter's bytes.
    pub open spec fn spec_bytes(self) -> Seq<u8> {
        match self {
            TrailingDelim::Gt => seq![62u8],
            TrailingDelim::SlashGt => seq![47u8, 62u8],
            TrailingDelim::CommentEnd => seq![45u8, 45u8, 62u8],
            TrailingDelim::RBrace => seq![125u8],
        }
    }

    /// How many indentation bytes a rotation of this delimiter may move: two for `/>`, one for
    /// the others.
    pub open spec fn max_steal(self) -> int {
        if self == TrailingDelim::SlashGt {
            2
        } else {
            1
        }
    }

    /// The delimiter's literal text.
    pub fn bytes(self) -> (r: &'static str)
        ensures
            r.spec_bytes() == self.spec_bytes(),
    {
        broadcast use vstd::utf8::group_utf8_lib;

        match self {
            TrailingDelim::Gt => {
                let t = ">";
                proof {
                    reveal_strlit(">");
                    assert(is_ascii_chars(t@));
                    assert(t.spec_bytes() =~= seq![62u8]);
                }
                t
            },
            TrailingDelim::SlashGt => {
                let t = "/>";
                proof {
                    reveal_strlit("/>");
                    assert(is_ascii_chars(t@));
                    assert(t.spec_bytes() =~= seq![47u8, 62u8]);
                }
                t
            },
            TrailingDelim::CommentEnd => {
                let t = "-->";
                proof {
                    reveal_strlit("-->");
                    assert(is_ascii_chars(t@));
                    assert(t.spec_bytes() =~= seq![45u8, 45u8, 62u8]);
                }
                t
            },
            TrailingDelim::RBrace => {
                let t = "}";
                proof {
                    reveal_strlit("}");
                    assert(is_ascii_chars(t@));
                    assert(t.spec_bytes() =~= seq![125u8]);
                }
                t
            },
        }
    }

    /// The delimiter's length in bytes.
    pub fn len(self) -> (r: usize)
        ensures
            r == self.spec_bytes().len(),
    {
        match self {
            TrailingDelim::Gt => 1,
            TrailingDelim::SlashGt => 2,
            TrailingDelim::CommentEnd => 3,
            TrailingDelim::RBrace => 1,
        }
    }
}

/// A space or a tab.
pub open spec fn is_blank(b: u8) -> bool {
    b == 32u8 || b == 9u8
}

/// The start of the last line of `g[..i]`: one past its last `\n`, or 0.
pub open spec fn last_line_start(g: Seq<u8>, i: int) -> int
    decreases i,
{
    if i <= 0 {
        0
    } else if g[i - 1] == 10u8 {
        i
    } else {
        last_line_start(g, i - 1)
    }
}

/// How many spaces or tabs end `g[..i]` after `floor`, counting at most `max`.
pub open spec fn steal_count(g: Seq<u8>, floor: int, i: int, max: int) -> int
    decreases max,
{
    if max <= 0 || i <= floor || !is_blank(g[i - 1]) {
        0
    } else {
        1 + steal_count(g, floor, i - 1, max - 1)
    }
}

/// How many indentation bytes rotating `d` over the gap `g` moves to the front.
pub open spec fn stolen(d: TrailingDelim, g: Seq<u8>) -> int {
    steal_count(g, last_line_start(g, g.len() as int), g.len() as int, d.max_steal())
}

/// The bytes of a delimiter rotated over a gap: the stolen indentation, the rest of the gap, the
/// delimiter.
pub open spec fn rotated_delim(d: TrailingDelim, g: Seq<u8>) -> Seq<u8> {
    let k = stolen(d, g);
    let n = g.len() as int;
    g.subrange(n - k, n) + g.subrange(0, n - k) + d.spec_bytes()
}

/// The origins of a rotated delimiter, as offsets into the input segment `delim + gap`.
pub open spec fn rotated_delim_origins(d: TrailingDelim, g: Seq<u8>) -> Seq<usize> {
    let k = stolen(d, g);
    let n = g.len() as int;
    let dl = d.spec_bytes().len() as int;
    Seq::new(k as nat, |i: int| (dl + n - k + i) as usize) + Seq::new(
        (n - k) as nat,
        |i: int| (dl + i) as usize,
    ) + Seq::new(dl as nat, |i: int| i as usize)
}

/// The origins of a rotated prefix, as offsets into the input segment `gap + prefix`.
pub open spec fn rotated_prefix_origins(p: int, g: int) -> Seq<usize> {
    Seq::new(p as nat, |i: int| (g + i) as usize) + Seq::new(g as nat, |i: int| i as usize)
}

proof fn lemma_steal_count_bound(g: Seq<u8>, floor: int, i: int, max: int)
    ensures
        0 <= steal_count(g, floor, i, max),
        max >= 0 ==> steal_count(g, floor, i, max) <= max,
        floor <= i ==> steal_count(g, floor, i, max) <= i - floor,
        forall|j: int|
            i - steal_count(g, floor, i, max) <= j < i ==> #[trigger] is_blank(g[j]),
    decreases max,
{
    if max <= 0 || i <= floor || !is_blank(g[i - 1]) {
    } else {
        lemma_steal_count_bound(g, floor, i - 1, max - 1);
    }
}

proof fn lemma_last_line_start_bound(g: Seq<u8>, i: int)
    ensures
        i >= 0 ==> 0 <= last_line_start(g, i) <= i,
    decreases i,
{
    if i > 0 && g[i - 1] != 10u8 {
        lemma_last_line_start_bound(g, i - 1);
    }
}

/// Rotate a trailing delimiter across the whitespace `gap`.
///
/// The input segment is `delim + gap`; the output is the stolen indentation (the spaces and tabs
/// that end the gap's last line, at most [`TrailingDelim::max_steal`] of them), then the rest of
/// the gap, then the delimiter. The second result gives, for each output byte, its offset in the
/// input segment; it is a permutation of the segment's offsets.
#[verifier::rlimit(60)]
pub fn rotate_delim_over_gap(delim: TrailingDelim, gap: &str) -> (r: (String, Vec<usize>))
    requires
        delim.spec_bytes().len() + gap.spec_bytes().len() <= usize::MAX,
    ensures
        encode_utf8(r.0@) == rotated_delim(delim, gap.spec_bytes()),
        r.1@ == rotated_delim_origins(delim, gap.spec_bytes()),
        forall|j: int|
            0 <= j < r.1@.len() ==> #[trigger] r.1@[j] < delim.spec_bytes().len()
                + gap.spec_bytes().len(),
{
    broadcast use vstd::utf8::group_utf8_lib;

    let gb = gap.as_bytes();
    let ghost g = gap.spec_bytes();
    let n = gb.len();
    let mut last_line: usize = 0;
    let mut i: usize = 0;
    while i < n
        invariant
            gb@ == g,
            n == g.len(),
            0 <= i <= n,
            last_line == last_line_start(g, i as int),
        decreases n - i,
    {
        if gb[i] == 10u8 {
            last_line = i + 1;
        }
        i = i + 1;
    }
    let max_steal: usize = match delim {
        TrailingDelim::SlashGt => 2,
        _ => 1,
    };
    proof {
        lemma_last_line_start_bound(g, n as int);
    }
    let mut k: usize = 0;
    let mut j: usize = n;
    while j > last_line && k < max_steal && (gb[j - 1] == 32u8 || gb[j - 1] == 9u8)
        invariant
            gb@ == g,
            n == g.len(),
            last_line == last_line_start(g, n as int),
            last_line <= j <= n,
            j == n - k,
            k <= max_steal,
            max_steal == delim.max_steal(),
            k + steal_count(g, last_line as int, j as int, max_steal - k) == stolen(delim, g),
        decreases j,
    {
        k = k + 1;
        j = j - 1;
    }
    let ghost k_spec = stolen(delim, g);
    assert(k == k_spec);
    proof {
        lemma_steal_count_bound(g, last_line as int, n as int, max_steal as int);
        if k > 0 {
            assert(is_blank(g[(n - k) as int]));
            encode_utf8_valid_utf8(gap@);
            is_char_boundary_iff_is_leading_byte(g, (n - k) as int);
            assert(is_char_boundary(g, (n - k) as int));
        } else {
            assert(is_char_boundary(g, n as int));
        }
        assert(is_char_boundary(g, 0));
        assert(is_char_boundary(g, n as int));
    }
    let rest = substr(gap, 0, n - k);
    let moved = substr(gap, n - k, n);
    let d = delim.bytes();
    let mut out = String::from_str(moved);
    out.append(rest);
    out.append(d);
    proof {
        lemma_encode_concat(moved@, rest@);
        lemma_encode_concat(moved@ + rest@, d@);
    }
    let dl = delim.len();
    let mut origins: Vec<usize> = Vec::new();
    let mut q: usize = n - k;
    while q < n
        invariant
            n - k <= q <= n,
            dl == delim.spec_bytes().len(),
            dl + n <= usize::MAX,
            origins@ == Seq::new((q - (n - k)) as nat, |x: int| (dl + n - k + x) as usize),
            forall|j: int| 0 <= j < origins@.len() ==> #[trigger] origins@[j] < dl + n,
        decreases n - q,
    {
        origins.push(dl + q);
        q = q + 1;
        assert(origins@ =~= Seq::new((q - (n - k)) as nat, |x: int| (dl + n - k + x) as usize));
    }
    let ghost part1 = origins@;
    let mut q: usize = 0;
    while q < n - k
        invariant
            0 <= q <= n - k,
            dl + n <= usize::MAX,
            origins@ == part1 + Seq::new(q as nat, |x: int| (dl + x) as usize),
            forall|j: int| 0 <= j < origins@.len() ==> #[trigger] origins@[j] < dl + n,
        decreases n - k - q,
    {
        origins.push(dl + q);
        q = q + 1;
        assert(origins@ =~= part1 + Seq::new(q as nat, |x: int| (dl + x) as usize));
    }
    let ghost part2 = origins@;
    let mut q: usize = 0;
    while q < dl
        invariant
            0 <= q <= dl,
            origins@ == part2 + Seq::new(q as nat, |x: int| x as usize),
            forall|j: int| 0 <= j < origins@.len() ==> #[trigger] origins@[j] < dl + n,
        decreases dl - q,
    {
        origins.push(q);
        q = q + 1;
        assert(origins@ =~= part2 + Seq::new(q as nat, |x: int| x as usize));
    }
    (out, origins)
}

/// Rotate an opener prefix left across the whitespace `gap`.
///
/// The input segment is `gap + prefix`; the output is `prefix + gap`. The second result gives,
/// for each output byte, its offset in the input segment.
pub fn rotate_prefix_over_gap(prefix: &str, gap: &str) -> (r: (String, Vec<usize>))
    requires
        prefix.spec_bytes().len() + gap.spec_bytes().len() <= usize::MAX,
    ensures
        encode_utf8(r.0@) == prefix.spec_bytes() + gap.spec_bytes(),
        r.1@ == rotated_prefix_origins(
            prefix.spec_bytes().len() as int,
            gap.spec_bytes().len() as int,
        ),
        forall|j: int|
            0 <= j < r.1@.len() ==> #[trigger] r.1@[j] < prefix.spec_bytes().len()
                + gap.spec_bytes().len(),
{
    let g = gap.as_bytes().len();
    let p = prefix.as_bytes().len();
    let mut out = String::from_str(prefix);
    out.append(gap);
    proof {
        lemma_encode_concat(prefix@, gap@);
    }
    let mut origins: Vec<usize> = Vec::new();
    let mut q: usize = 0;
    while q < p
        invariant
            0 <= q <= p,
            p + g <= usize::MAX,
            origins@ == Seq::new(q as nat, |x: int| (g + x) as usize),
            forall|j: int| 0 <= j < origins@.len() ==> #[trigger] origins@[j] < p + g,
        decreases p - q,
    {
        origins.push(g + q);
        q = q + 1;
        assert(origins@ =~= Seq::new(q as nat, |x: int| (g + x) as usize));
    }
    let ghost part1 = origins@;
    let mut q: usize = 0;
    while q < g
        invariant
            0 <= q <= g,
            origins@ == part1 + Seq::new(q as nat, |x: int| x as usize),
            forall|j: int| 0 <= j < origins@.len() ==> #[trigger] origins@[j] < p + g,
            p + g <= usize::MAX,
        decreases g - q,
    {
        origins.push(q);
        q = q + 1;
        assert(origins@ =~= part1 + Seq::new(q as nat, |x: int| x as usize));
    }
    (out, origins)
}

/// Length of the whitespace scalar whose UTF-8 encoding starts at `i` and ends by `end`, or 0
/// when none does. The whitespace scalars are those of Unicode's `White_Space` property:
/// U+0009 to U+000D, U+0020, U+0085, U+00A0, U+1680, U+2000 to U+200A, U+2028, U+2029, U+202F,
/// U+205F and U+3000.
pub open spec fn ws_len(s: Seq<u8>, i: int, end: int) -> int {
    if 0 <= i && i + 1 <= end && end <= s.len() && ((9u8 <= s[i] <= 13u8) || s[i] == 32u8) {
        1
    } else if 0 <= i && i + 2 <= end && end <= s.len() && s[i] == 0xC2u8 && (s[i + 1] == 0x85u8
        || s[i + 1] == 0xA0u8) {
        2
    } else if 0 <= i && i + 3 <= end && end <= s.len() && ((s[i] == 0xE1u8 && s[i + 1] == 0x9Au8
        && s[i + 2] == 0x80u8) || (s[i] == 0xE2u8 && s[i + 1] == 0x80u8 && ((0x80u8 <= s[i + 2]
        <= 0x8Au8) || s[i + 2] == 0xA8u8 || s[i + 2] == 0xA9u8 || s[i + 2] == 0xAFu8)) || (s[i]
        == 0xE2u8 && s[i + 1] == 0x81u8 && s[i + 2] == 0x9Fu8) || (s[i] == 0xE3u8 && s[i + 1]
        == 0x80u8 && s[i + 2] == 0x80u8)) {
        3
    } else {
        0
    }
}

/// `s[i..end]` is a run of whitespace scalars.
pub open spec fn all_ws(s: Seq<u8>, i: int, end: int) -> bool
    decreases end - i,
{
    if i >= end {
        true
    } else {
        ws_len(s, i, end) > 0 && all_ws(s, i + ws_len(s, i, end), end)
    }
}

/// `g` holds an empty line: `\n\n` or `\r\n\r\n`.
pub open spec fn has_blank_line(g: Seq<u8>) -> bool {
    (exists|i: int| 0 <= i && i + 2 <= g.len() && #[trigger] g[i] == 10u8 && g[i + 1] == 10u8)
        || (exists|i: int|
        0 <= i && i + 4 <= g.len() && #[trigger] g[i] == 13u8 && g[i + 1] == 10u8 && g[i + 2]
            == 13u8 && g[i + 3] == 10u8)
}

/// Length of the whitespace scalar at `i`, within `end`.
fn whitespace_len(s: &[u8], i: usize, end: usize) -> (r: usize)
    requires
        i <= end <= s@.len(),
    ensures
        r == ws_len(s@, i as int, end as int),
{
    if end - i >= 1 && ((9u8 <= s[i] && s[i] <= 13u8) || s[i] == 32u8) {
        1
    } else if end - i >= 2 && s[i] == 0xC2u8 && (s[i + 1] == 0x85u8 || s[i + 1] == 0xA0u8) {
        2
    } else if end - i >= 3 && ((s[i] == 0xE1u8 && s[i + 1] == 0x9Au8 && s[i + 2] == 0x80u8) || (
    s[i] == 0xE2u8 && s[i + 1] == 0x80u8 && ((0x80u8 <= s[i + 2] && s[i + 2] <= 0x8Au8) || s[i
        + 2] == 0xA8u8 || s[i + 2] == 0xA9u8 || s[i + 2] == 0xAFu8)) || (s[i] == 0xE2u8 && s[i
        + 1] == 0x81u8 && s[i + 2] == 0x9Fu8) || (s[i] == 0xE3u8 && s[i + 1] == 0x80u8 && s[i
        + 2] == 0x80u8)) {
        3
    } else {
        0
    }
}

/// Whether `s[start..end]` is all whitespace.
fn is_all_whitespace(s: &[u8], start: usize, end: usize) -> (r: bool)
    requires
        start <= end <= s@.len(),
    ensures
        r == all_ws(s@, start as int, end as int),
{
    let mut i = start;
    while i < end
        invariant
            start <= i <= end <= s@.len(),
            all_ws(s@, start as int, end as int) == all_ws(s@, i as int, end as int),
        decreases end - i,
    {
        let w = whitespace_len(s, i, end);
        if w == 0 {
            return false;
        }
        i = i + w;
    }
    true
}

/// Whether a whitespace gap holds an empty line (`\n\n` or `\r\n\r\n`).
pub fn contains_blank_line(ws: &str) -> (r: bool)
    ensures
        r == has_blank_line(ws.spec_bytes()),
{
    let b = ws.as_bytes();
    let n = b.len();
    let mut i: usize = 0;
    while n >= 2 && i <= n - 2
        invariant
            b@ == ws.spec_bytes(),
            n == b@.len(),
            forall|j: int| 0 <= j < i && j + 2 <= n ==> !(#[trigger] b@[j] == 10u8 && b@[j + 1] == 10u8),
        decreases n - i,
    {
        if b[i] == 10u8 && b[i + 1] == 10u8 {
            return true;
        }
        i = i + 1;
    }
    let mut i: usize = 0;
    while n >= 4 && i <= n - 4
        invariant
            b@ == ws.spec_bytes(),
            n == b@.len(),
            forall|j: int| 0 <= j && j + 2 <= n ==> !(#[trigger] b@[j] == 10u8 && b@[j + 1] == 10u8),
            forall|j: int|
                0 <= j < i && j + 4 <= n ==> !(#[trigger] b@[j] == 13u8 && b@[j + 1] == 10u8 && b@[j
                    + 2] == 13u8 && b@[j + 3] == 10u8),
        decreases n - i,
    {
        if b[i] == 13u8 && b[i + 1] == 10u8 && b[i + 2] == 13u8 && b[i + 3] == 10u8 {
            return true;
        }
        i = i + 1;
    }
    false
}

/// The delimiter that ends node `x`: by kind, and for an element that of its last named child
/// (descending at most `fuel` levels).
pub open spec fn trailing_delim_of(nodes: Seq<CstNode>, x: int, fuel: int) -> Option<TrailingDelim>
    decreases fuel,
{
    if fuel <= 0 || x < 0 || x >= nodes.len() {
        None
    } else {
        match nodes[x].kind {
            NodeKind::StartTag | NodeKind::EndTag => Some(TrailingDelim::Gt),
            NodeKind::SelfClosingTag => Some(TrailingDelim::SlashGt),
            NodeKind::Comment => Some(TrailingDelim::CommentEnd),
            NodeKind::HtmlInterpolation => Some(TrailingDelim::RBrace),
            NodeKind::Element => if nodes[x].named_children@.len() == 0 {
                None
            } else {
                trailing_delim_of(nodes, nodes[x].named_children@.last() as int, fuel - 1)
            },
            _ => None,
        }
    }
}

/// Node `c` exists and has kind `k`.
pub open spec fn has_kind(nodes: Seq<CstNode>, c: int, k: NodeKind) -> bool {
    0 <= c < nodes.len() && nodes[c].kind == k
}

/// Position in `ch` (from `i` on) of the first child that is a start or self-closing tag.
pub open spec fn first_tag_child(nodes: Seq<CstNode>, ch: Seq<usize>, i: int) -> Option<int>
    decreases ch.len() - i,
{
    if i < 0 || i >= ch.len() {
        None
    } else if has_kind(nodes, ch[i] as int, NodeKind::StartTag) || has_kind(
        nodes,
        ch[i] as int,
        NodeKind::SelfClosingTag,
    ) {
        Some(i)
    } else {
        first_tag_child(nodes, ch, i + 1)
    }
}

/// Position in `ch` (from `i` on) of the first child that is a tag name.
pub open spec fn first_name_child(nodes: Seq<CstNode>, ch: Seq<usize>, i: int) -> Option<int>
    decreases ch.len() - i,
{
    if i < 0 || i >= ch.len() {
        None
    } else if has_kind(nodes, ch[i] as int, NodeKind::TagName) {
        Some(i)
    } else {
        first_name_child(nodes, ch, i + 1)
    }
}

/// End of the opener prefix of node `x`: one past `{` for an interpolation, past `<!--` for a
/// comment, past the tag name for a tag that starts with `<`, and for an element that of its
/// first start or self-closing tag (descending at most `fuel` levels).
pub open spec fn opener_end_of(s: Seq<u8>, nodes: Seq<CstNode>, x: int, fuel: int) -> Option<int>
    decreases fuel,
{
    if fuel <= 0 || x < 0 || x >= nodes.len() {
        None
    } else {
        let n = nodes[x];
        let start = n.start_byte as int;
        match n.kind {
            NodeKind::HtmlInterpolation => if start < s.len() && s[start] == 123u8 {
                Some(start + 1)
            } else {
                None
            },
            NodeKind::Comment => if start + 4 <= s.len() && s.subrange(start, start + 4) == seq![
                60u8,
                33u8,
                45u8,
                45u8,
            ] {
                Some(start + 4)
            } else {
                None
            },
            NodeKind::Element => match first_tag_child(nodes, n.named_children@, 0) {
                Some(i) => opener_end_of(s, nodes, n.named_children@[i] as int, fuel - 1),
                None => None,
            },
            NodeKind::StartTag | NodeKind::EndTag | NodeKind::SelfClosingTag => if start < s.len()
                && s[start] == 60u8 {
                match first_name_child(nodes, n.named_children@, 0) {
                    Some(i) => {
                        let e = nodes[n.named_children@[i] as int].end_byte as int;
                        if e > start {
                            Some(e)
                        } else {
                            None
                        }
                    },
                    None => None,
                }
            } else {
                None
            },
            _ => None,
        }
    }
}

proof fn lemma_opener_end_bound(s: Seq<u8>, nodes: Seq<CstNode>, x: int, fuel: int)
    requires
        s.len() <= usize::MAX,
    ensures
        opener_end_of(s, nodes, x, fuel) matches Some(e) ==> 0 <= e <= usize::MAX,
    decreases fuel,
{
    if fuel > 0 && 0 <= x < nodes.len() && nodes[x].kind == NodeKind::Element {
        match first_tag_child(nodes, nodes[x].named_children@, 0) {
            Some(i) => lemma_opener_end_bound(s, nodes, nodes[x].named_children@[i] as int, fuel - 1),
            None => {},
        }
    }
}

/// The delimiter that ends node `x`, descending into elements through their last named child.
fn trailing_delim(tree: &Cst, x: usize) -> (r: Option<TrailingDelim>)
    ensures
        r == trailing_delim_of(tree.nodes@, x as int, tree.nodes@.len() as int),
{
    let n = tree.nodes.len();
    let mut cur = x;
    let mut fuel = n;
    while fuel > 0 && cur < n && tree.nodes[cur].kind == NodeKind::Element
        && tree.nodes[cur].named_children.len() > 0
        invariant
            n == tree.nodes@.len(),
            trailing_delim_of(tree.nodes@, x as int, n as int) == trailing_delim_of(
                tree.nodes@,
                cur as int,
                fuel as int,
            ),
        decreases fuel,
    {
        let ch = &tree.nodes[cur].named_children;
        cur = ch[ch.len() - 1];
        fuel = fuel - 1;
    }
    if fuel == 0 || cur >= n {
        return None;
    }
    match tree.nodes[cur].kind {
        NodeKind::StartTag | NodeKind::EndTag => Some(TrailingDelim::Gt),
        NodeKind::SelfClosingTag => Some(TrailingDelim::SlashGt),
        NodeKind::Comment => Some(TrailingDelim::CommentEnd),
        NodeKind::HtmlInterpolation => Some(TrailingDelim::RBrace),
        _ => None,
    }
}

/// Index into `ch` of the first child of one of the kinds `a` or `b`.
fn find_child(tree: &Cst, ch: &Vec<usize>, a: NodeKind, b: NodeKind) -> (r: Option<usize>)
    ensures
        r matches Some(i) ==> i < ch@.len() && ch@[i as int] < tree.nodes@.len() && (
        tree.nodes@[ch@[i as int] as int].kind == a || tree.nodes@[ch@[i as int] as int].kind
            == b),
        a == NodeKind::StartTag && b == NodeKind::SelfClosingTag ==> match r {
            Some(i) => first_tag_child(tree.nodes@, ch@, 0) == Some(i as int),
            None => first_tag_child(tree.nodes@, ch@, 0) is None,
        },
        a == NodeKind::TagName && b == NodeKind::TagName ==> match r {
            Some(i) => first_name_child(tree.nodes@, ch@, 0) == Some(i as int),
            None => first_name_child(tree.nodes@, ch@, 0) is None,
        },
{
    let n = tree.nodes.len();
    let mut i: usize = 0;
    while i < ch.len()
        invariant
            n == tree.nodes@.len(),
            0 <= i <= ch@.len(),
            a == NodeKind::StartTag && b == NodeKind::SelfClosingTag ==> first_tag_child(
                tree.nodes@,
                ch@,
                0,
            ) == first_tag_child(tree.nodes@, ch@, i as int),
            a == NodeKind::TagName && b == NodeKind::TagName ==> first_name_child(
                tree.nodes@,
                ch@,
                0,
            ) == first_name_child(tree.nodes@, ch@, i as int),
        decreases ch@.len() - i,
    {
        let c = ch[i];
        if c < n && (tree.nodes[c].kind == a || tree.nodes[c].kind == b) {
            return Some(i);
        }
        i = i + 1;
    }
    None
}

/// End of the opener prefix of node `x` (see [`opener_end_of`]).
fn opener_prefix_end(source: &[u8], tree: &Cst, x: usize) -> (r: Option<usize>)
    ensures
        r == match opener_end_of(source@, tree.nodes@, x as int, tree.nodes@.len() as int) {
            Some(e) => Some(e as usize),
            None => None::<usize>,
        },
{
    let n = tree.nodes.len();
    let mut cur = x;
    let mut fuel = n;
    loop
        invariant
            n == tree.nodes@.len(),
            opener_end_of(source@, tree.nodes@, x as int, n as int) == opener_end_of(
                source@,
                tree.nodes@,
                cur as int,
                fuel as int,
            ),
        decreases fuel,
    {
        if fuel == 0 || cur >= n {
            return None;
        }
        let node = &tree.nodes[cur];
        let start = node.start_byte;
        match node.kind {
            NodeKind::HtmlInterpolation => {
                if start < source.len() && source[start] == 123u8 {
                    return Some(start + 1);
                }
                return None;
            },
            NodeKind::Comment => {
                if start < source.len() && source.len() - start >= 4 && source[start] == 60u8
                    && source[start + 1] == 33u8 && source[start + 2] == 45u8 && source[start + 3]
                    == 45u8 {
                    assert(source@.subrange(start as int, start + 4) =~= seq![
                        60u8,
                        33u8,
                        45u8,
                        45u8,
                    ]);
                    return Some(start + 4);
                }
                proof {
                    if start + 4 <= source@.len() && source@.subrange(start as int, start + 4)
                        == seq![60u8, 33u8, 45u8, 45u8] {
                        assert(source@.subrange(start as int, start + 4)[0] == source@[start as int]);
                        assert(source@.subrange(start as int, start + 4)[1] == source@[start + 1]);
                        assert(source@.subrange(start as int, start + 4)[2] == source@[start + 2]);
                        assert(source@.subrange(start as int, start + 4)[3] == source@[start + 3]);
                    }
                }
                return None;
            },
            NodeKind::Element => {
                match find_child(tree, &node.named_children, NodeKind::StartTag, NodeKind::SelfClosingTag) {
                    Some(i) => {
                        cur = node.named_children[i];
                        fuel = fuel - 1;
                    },
                    None => {
                        return None;
                    },
                }
            },
            NodeKind::StartTag | NodeKind::EndTag | NodeKind::SelfClosingTag => {
                if !(start < source.len() && source[start] == 60u8) {
                    return None;
                }
                match find_child(tree, &node.named_children, NodeKind::TagName, NodeKind::TagName) {
                    Some(i) => {
                        let c = node.named_children[i];
                        let e = tree.nodes[c].end_byte;
                        if e > start {
                            return Some(e);
                        }
                        return None;
                    },
                    None => {
                        return None;
                    },
                }
            },
            _ => {
                return None;
            },
        }
    }
}

/// Stripping options.
#[derive(Debug, Clone, Copy, Default, PartialEq, Eq)]
pub struct StripConfig {
    /// Leave alone every gap that holds an empty line (`\n\n` or `\r\n\r\n`).
    pub preserve_blank_lines: bool,
}

/// An edit, as plain values.
pub struct EditModel {
    pub start: int,
    pub end: int,
    pub bytes: Seq<u8>,
    pub origins: Seq<Option<usize>>,
    pub moved: int,
}

impl Edit {
    /// The edit as plain values.
    pub open spec fn model(&self) -> EditModel {
        EditModel {
            start: self.start as int,
            end: self.end as int,
            bytes: self.repl_bytes(),
            origins: self.origins(),
            moved: self.moved_delim_len as int,
        }
    }
}

/// Offsets into a segment, moved to absolute input offsets.
pub open spec fn shift_origins(offsets: Seq<usize>, base: int) -> Seq<Option<usize>> {
    Seq::new(offsets.len(), |j: int| Some((offsets[j] + base) as usize))
}

/// A container node: `document` or `element`.
pub open spec fn is_container(k: NodeKind) -> bool {
    k == NodeKind::Document || k == NodeKind::Element
}

/// The edit for the gap between named children `k` and `k + 1` of node `c`, if any.
///
/// The gap must be non-empty, all whitespace, bounded by character boundaries, and (when blank
/// lines are preserved) free of an empty line. If the previous node ends with its trailing
/// delimiter, the delimiter rotates right over the gap. Otherwise, if the previous node is text
/// and the next node's opener prefix reaches past the gap, the prefix rotates left.
#[verifier::opaque]
pub open spec fn gap_edit(s: Seq<u8>, nodes: Seq<CstNode>, preserve: bool, c: int, k: int) -> Option<
    EditModel,
> {
    if !(0 <= c < nodes.len() && is_container(nodes[c].kind) && 0 <= k && k + 1
        < nodes[c].named_children@.len()) {
        None
    } else {
        let pi = nodes[c].named_children@[k] as int;
        let ni = nodes[c].named_children@[k + 1] as int;
        if !(pi < nodes.len() && ni < nodes.len()) {
            None
        } else {
            let gs = nodes[pi].end_byte as int;
            let ge = nodes[ni].start_byte as int;
            if !(gs < ge && ge <= s.len() && all_ws(s, gs, ge) && is_char_boundary(s, gs)
                && is_char_boundary(s, ge)) {
                None
            } else if preserve && has_blank_line(s.subrange(gs, ge)) {
                None
            } else {
                let g = s.subrange(gs, ge);
                let td = trailing_delim_of(nodes, pi, nodes.len() as int);
                let dl = if td is Some {
                    td->Some_0.spec_bytes().len() as int
                } else {
                    0
                };
                if td is Some && gs >= dl && s.subrange(gs - dl, gs) == td->Some_0.spec_bytes()
                    && is_char_boundary(s, gs - dl) {
                    Some(
                        EditModel {
                            start: gs - dl,
                            end: ge,
                            bytes: rotated_delim(td->Some_0, g),
                            origins: shift_origins(rotated_delim_origins(td->Some_0, g), gs - dl),
                            moved: dl,
                        },
                    )
                } else {
                    let pe = opener_end_of(s, nodes, ni, nodes.len() as int);
                    if nodes[pi].kind == NodeKind::Text && pe is Some && pe->Some_0 > ge
                        && pe->Some_0 <= s.len() && is_char_boundary(s, pe->Some_0) {
                        Some(
                            EditModel {
                                start: gs,
                                end: pe->Some_0,
                                bytes: s.subrange(ge, pe->Some_0) + g,
                                origins: shift_origins(
                                    rotated_prefix_origins(pe->Some_0 - ge, ge - gs),
                                    gs,
                                ),
                                moved: 0,
                            },
                        )
                    } else {
                        None
                    }
                }
            }
        }
    }
}

/// Offsets moved to absolute input offsets.
fn to_input_offsets(offsets: &Vec<usize>, base: usize) -> (r: Vec<Option<usize>>)
    requires
        forall|j: int| 0 <= j < offsets@.len() ==> #[trigger] offsets@[j] + base <= usize::MAX,
    ensures
        r@ == shift_origins(offsets@, base as int),
{
    let mut r: Vec<Option<usize>> = Vec::new();
    let mut j: usize = 0;
    while j < offsets.len()
        invariant
            0 <= j <= offsets@.len(),
            forall|q: int| 0 <= q < offsets@.len() ==> #[trigger] offsets@[q] + base <= usize::MAX,
            r@ == Seq::new(j as nat, |q: int| Some((offsets@[q] + base) as usize)),
        decreases offsets@.len() - j,
    {
        r.push(Some(offsets[j] + base));
        j = j + 1;
        assert(r@ =~= Seq::new(j as nat, |q: int| Some((offsets@[q] + base) as usize)));
    }
    r
}

/// The edit for the gap between named children `k` and `k + 1` of node `c` (see [`gap_edit`]).
fn gap_edit_at(source: &str, tree: &Cst, c: usize, k: usize, config: &StripConfig) -> (r: Option<Edit>)
    requires
        c < tree.nodes@.len(),
        is_container(tree.nodes@[c as int].kind),
        k + 1 < tree.nodes@[c as int].named_children@.len(),
    ensures
        match r {
            Some(e) => gap_edit(
                source.spec_bytes(),
                tree.nodes@,
                config.preserve_blank_lines,
                c as int,
                k as int,
            ) == Some(e.model()),
            None => gap_edit(
                source.spec_bytes(),
                tree.nodes@,
                config.preserve_blank_lines,
                c as int,
                k as int,
            ) is None,
        },
{
    reveal(gap_edit);
    let ghost s = source.spec_bytes();
    let bytes = source.as_bytes();
    let n = tree.nodes.len();
    let ch = &tree.nodes[c].named_children;
    let m = ch.len();
    assert(ch@ == tree.nodes@[c as int].named_children@);
    assert(k + 1 < m);
    let pi = ch[k];
    let ni = ch[k + 1];
    if pi >= n || ni >= n {
        return None;
    }
    let gs = tree.nodes[pi].end_byte;
    let ge = tree.nodes[ni].start_byte;
    if !(gs < ge && ge <= bytes.len()) {
        return None;
    }
    if !is_all_whitespace(bytes, gs, ge) || !source.is_char_boundary(gs)
        || !source.is_char_boundary(ge) {
        return None;
    }
    let gap = substr(source, gs, ge);
    if config.preserve_blank_lines && contains_blank_line(gap) {
        return None;
    }
    if let Some(delim) = trailing_delim(tree, pi) {
        let dl = delim.len();
        if gs >= dl && source.is_char_boundary(gs - dl) {
            let delim_pos = gs - dl;
            let db = delim.bytes().as_bytes();
            let mut q: usize = 0;
            while q < dl && bytes[delim_pos + q] == db[q]
                invariant
                    db@ == delim.spec_bytes(),
                    dl == db@.len(),
                    delim_pos + dl == gs,
                    gs <= bytes@.len(),
                    bytes@ == s,
                    0 <= q <= dl,
                    forall|t: int| 0 <= t < q ==> s[delim_pos + t] == #[trigger] db@[t],
                decreases dl - q,
            {
                q = q + 1;
            }
            let same = q == dl;
            proof {
                if same {
                    assert(s.subrange(delim_pos as int, gs as int) =~= db@);
                } else if s.subrange(delim_pos as int, gs as int) == db@ {
                    assert(s.subrange(delim_pos as int, gs as int)[q as int] == s[delim_pos + q]);
                }
            }
            if same {
                let (replacement, offsets) = rotate_delim_over_gap(delim, gap);
                let origins = to_input_offsets(&offsets, delim_pos);
                return Some(
                    Edit {
                        start: delim_pos,
                        end: ge,
                        replacement,
                        output_byte_to_input_byte: origins,
                        moved_delim_len: dl,
                    },
                );
            }
        }
    }
    if tree.nodes[pi].kind == NodeKind::Text {
        if let Some(pe) = opener_prefix_end(bytes, tree, ni) {
            proof {
                lemma_opener_end_bound(s, tree.nodes@, ni as int, n as int);
            }
            if pe > ge && pe <= bytes.len() && source.is_char_boundary(pe) {
                let prefix = substr(source, ge, pe);
                let (replacement, offsets) = rotate_prefix_over_gap(prefix, gap);
                let origins = to_input_offsets(&offsets, gs);
                return Some(
                    Edit {
                        start: gs,
                        end: pe,
                        replacement,
                        output_byte_to_input_byte: origins,
                        moved_delim_len: 0,
                    },
                );
            }
        }
    }
    None
}

/// Edit order: by start, then end, then replacement length.
pub open spec fn edit_le(a: EditModel, b: EditModel) -> bool {
    a.start < b.start || (a.start == b.start && (a.end < b.end || (a.end == b.end
        && a.bytes.len() <= b.bytes.len())))
}

/// The edits are in [`edit_le`] order.
pub open spec fn sorted_edits(edits: Seq<Edit>) -> bool {
    forall|i: int, j: int|
        0 <= i < j < edits.len() ==> edit_le(#[trigger] edits[i].model(), #[trigger] edits[j].model())
}

/// The pair `(c2, k2)` comes before `(c, k)` in the walk.
pub open spec fn walked_before(c: int, k: int, c2: int, k2: int) -> bool {
    c2 < c || (c2 == c && k2 < k)
}

fn edit_key_le(a: &Edit, b: &Edit) -> (r: bool)
    ensures
        r == edit_le(a.model(), b.model()),
{
    let la = a.replacement.as_str().as_bytes().len();
    let lb = b.replacement.as_str().as_bytes().len();
    a.start < b.start || (a.start == b.start && (a.end < b.end || (a.end == b.end && la <= lb)))
}

/// The two edits say the same thing.
fn edit_same(a: &Edit, b: &Edit) -> (r: bool)
    ensures
        r == (a.model() == b.model()),
{
    if a.start != b.start || a.end != b.end || a.moved_delim_len != b.moved_delim_len {
        return false;
    }
    if !(a.replacement == b.replacement) {
        proof {
            encode_utf8_decode_utf8(a.replacement@);
            encode_utf8_decode_utf8(b.replacement@);
        }
        return false;
    }
    let n = a.output_byte_to_input_byte.len();
    if n != b.output_byte_to_input_byte.len() {
        return false;
    }
    let mut i: usize = 0;
    while i < n
        invariant
            n == a.origins().len(),
            n == b.origins().len(),
            0 <= i <= n,
            forall|j: int| 0 <= j < i ==> a.origins()[j] == b.origins()[j],
        decreases n - i,
    {
        if a.output_byte_to_input_byte[i] != b.output_byte_to_input_byte[i] {
            return false;
        }
        i = i + 1;
    }
    assert(a.origins() =~= b.origins());
    true
}

/// No two of the edits say the same thing.
pub open spec fn distinct_edits(edits: Seq<Edit>) -> bool {
    forall|i: int, j: int|
        0 <= i < j < edits.len() ==> (#[trigger] edits[i]).model() != (#[trigger] edits[j]).model()
}

/// Every edit of `b` says what some edit of `a` says.
pub open spec fn covers(a: Seq<Edit>, b: Seq<Edit>) -> bool {
    forall|j: int|
        0 <= j < b.len() ==> exists|i: int| 0 <= i < a.len() && a[i].model() == (#[trigger] b[j]).model()
}

/// Whether some edit says the same as `e`.
fn find_same(edits: &Vec<Edit>, e: &Edit) -> (r: bool)
    ensures
        r == exists|i: int| 0 <= i < edits@.len() && (#[trigger] edits@[i]).model() == e.model(),
{
    let n = edits.len();
    let mut q: usize = 0;
    while q < n
        invariant
            n == edits@.len(),
            0 <= q <= n,
            forall|i: int| 0 <= i < q ==> (#[trigger] edits@[i]).model() != e.model(),
        decreases n - q,
    {
        if edit_same(&edits[q], e) {
            return true;
        }
        q = q + 1;
    }
    false
}

/// Insert `e` after every edit that is not after it, unless an edit already says the same.
fn insert_sorted(edits: &mut Vec<Edit>, e: Edit)
    requires
        sorted_edits(old(edits)@),
        distinct_edits(old(edits)@),
    ensures
        sorted_edits(final(edits)@),
        distinct_edits(final(edits)@),
        covers(final(edits)@, old(edits)@),
        exists|i: int| 0 <= i < final(edits)@.len() && final(edits)@[i].model() == e.model(),
        forall|i: int|
            0 <= i < final(edits)@.len() ==> (#[trigger] final(edits)@[i]).model() == e.model()
                || exists|j: int| 0 <= j < old(edits)@.len() && old(edits)@[j].model() == final(edits)@[i].model(),
{
    if find_same(edits, &e) {
        proof {
            assert forall|j: int| 0 <= j < edits@.len() implies exists|i: int|
                0 <= i < edits@.len() && edits@[i].model() == (#[trigger] edits@[j]).model() by {}
            assert forall|i: int| 0 <= i < edits@.len() implies (#[trigger] edits@[i]).model() == e.model()
                || exists|j: int| 0 <= j < edits@.len() && edits@[j].model() == edits@[i].model() by {}
        }
        return;
    }
    insert_new(edits, e);
}

proof fn lemma_insert_sorted(before: Seq<Edit>, p: int, e: Edit)
    requires
        sorted_edits(before),
        0 <= p <= before.len(),
        forall|i: int| 0 <= i < p ==> edit_le(#[trigger] before[i].model(), e.model()),
        p < before.len() ==> !edit_le(before[p].model(), e.model()),
    ensures
        sorted_edits(before.insert(p, e)),
{
    let r = before.insert(p, e);
    assert forall|i: int, j: int| 0 <= i < j < r.len() implies edit_le(
        #[trigger] r[i].model(),
        #[trigger] r[j].model(),
    ) by {
        if j < p {
            assert(r[i] == before[i] && r[j] == before[j]);
        } else if j == p {
            assert(r[i] == before[i]);
        } else if i == p {
            assert(r[j] == before[j - 1]);
            assert(edit_le(before[p].model(), before[j - 1].model()) || p == j - 1);
        } else if i < p {
            assert(r[i] == before[i] && r[j] == before[j - 1]);
        } else {
            assert(r[i] == before[i - 1] && r[j] == before[j - 1]);
        }
    }
}

proof fn lemma_insert_distinct(before: Seq<Edit>, p: int, e: Edit)
    requires
        distinct_edits(before),
        0 <= p <= before.len(),
        forall|i: int| 0 <= i < before.len() ==> (#[trigger] before[i]).model() != e.model(),
    ensures
        distinct_edits(before.insert(p, e)),
{
    let r = before.insert(p, e);
    assert forall|i: int, j: int| 0 <= i < j < r.len() implies (#[trigger] r[i]).model() != (
    #[trigger] r[j]).model() by {
        if j < p {
            assert(r[i] == before[i] && r[j] == before[j]);
        } else if j == p {
            assert(r[i] == before[i]);
        } else if i == p {
            assert(r[j] == before[j - 1]);
        } else if i < p {
            assert(r[i] == before[i] && r[j] == before[j - 1]);
        } else {
            assert(r[i] == before[i - 1] && r[j] == before[j - 1]);
        }
    }
}

proof fn lemma_insert_members(before: Seq<Edit>, p: int, e: Edit)
    requires
        0 <= p <= before.len(),
    ensures
        covers(before.insert(p, e), before),
        exists|i: int| 0 <= i < before.insert(p, e).len() && before.insert(p, e)[i].model() == e.model(),
        forall|i: int|
            0 <= i < before.insert(p, e).len() ==> (#[trigger] before.insert(p, e)[i]).model()
                == e.model() || exists|j: int| 0 <= j < before.len() && before[j].model() == before.insert(p, e)[i].model(),
{
    let r = before.insert(p, e);
    assert forall|j: int| 0 <= j < before.len() implies exists|i: int|
        0 <= i < r.len() && r[i].model() == (#[trigger] before[j]).model() by {
        if j < p {
            assert(r[j] == before[j]);
        } else {
            assert(r[j + 1] == before[j]);
        }
    }
    assert(r[p] == e);
    assert forall|i: int| 0 <= i < r.len() implies (#[trigger] r[i]).model() == e.model()
        || exists|j: int| 0 <= j < before.len() && before[j].model() == r[i].model() by {
        if i < p {
            assert(r[i] == before[i]);
        } else if i > p {
            assert(r[i] == before[i - 1]);
        }
    }
}

/// Insert `e`, which no edit says yet, after every edit that is not after it.
fn insert_new(edits: &mut Vec<Edit>, e: Edit)
    requires
        sorted_edits(old(edits)@),
        distinct_edits(old(edits)@),
        forall|i: int| 0 <= i < old(edits)@.len() ==> (#[trigger] old(edits)@[i]).model() != e.model(),
    ensures
        sorted_edits(final(edits)@),
        distinct_edits(final(edits)@),
        covers(final(edits)@, old(edits)@),
        exists|i: int| 0 <= i < final(edits)@.len() && final(edits)@[i].model() == e.model(),
        forall|i: int|
            0 <= i < final(edits)@.len() ==> (#[trigger] final(edits)@[i]).model() == e.model()
                || exists|j: int| 0 <= j < old(edits)@.len() && old(edits)@[j].model() == final(edits)@[i].model(),
{
    let n = edits.len();
    let mut p: usize = 0;
    while p < n && edit_key_le(&edits[p], &e)
        invariant
            n == edits@.len(),
            0 <= p <= n,
            forall|i: int| 0 <= i < p ==> edit_le(#[trigger] edits@[i].model(), e.model()),
        decreases n - p,
    {
        p = p + 1;
    }
    let ghost before = edits@;
    proof {
        lemma_insert_sorted(before, p as int, e);
        lemma_insert_distinct(before, p as int, e);
        lemma_insert_members(before, p as int, e);
    }
    edits.insert(p, e);
}

/// Sort edits by start, end and replacement length, keeping one of the edits that say the same.
fn sort_edits(v: Vec<Edit>) -> (r: Vec<Edit>)
    ensures
        sorted_edits(r@),
        distinct_edits(r@),
        covers(r@, v@),
        covers(v@, r@),
{
    let n = v.len();
    let mut r: Vec<Edit> = Vec::new();
    let mut k: usize = 0;
    let mut v = v;
    let ghost orig = v@;
    while v.len() > 0
        invariant
            orig.len() == n,
            v@ == orig.subrange(k as int, n as int),
            k <= n,
            sorted_edits(r@),
            distinct_edits(r@),
            covers(r@, orig.subrange(0, k as int)),
            covers(orig, r@),
        decreases v@.len(),
    {
        let ghost rb = r@;
        let e = v.remove(0);
        assert(e == orig[k as int]);
        insert_sorted(&mut r, e);
        proof {
            assert forall|j: int| 0 <= j < orig.subrange(0, k + 1).len() implies exists|i: int|
                0 <= i < r@.len() && r@[i].model() == (#[trigger] orig.subrange(0, k + 1)[j]).model() by {
                if j < k {
                    assert(orig.subrange(0, k + 1)[j] == orig.subrange(0, k as int)[j]);
                    let i0 = choose|i0: int|
                        0 <= i0 < rb.len() && rb[i0].model() == orig.subrange(0, k as int)[j].model();
                    assert(rb[i0] == rb[i0]);
                    let i1 = choose|i1: int| 0 <= i1 < r@.len() && r@[i1].model() == rb[i0].model();
                } else {
                    assert(orig.subrange(0, k + 1)[j] == e);
                }
            }
            assert forall|i: int| 0 <= i < r@.len() implies exists|j: int|
                0 <= j < orig.len() && orig[j].model() == (#[trigger] r@[i]).model() by {
                if r@[i].model() != e.model() {
                    let j0 = choose|j0: int| 0 <= j0 < rb.len() && rb[j0].model() == r@[i].model();
                    assert(rb[j0] == rb[j0]);
                } else {
                    assert(orig[k as int].model() == r@[i].model());
                }
            }
            assert(v@ =~= orig.subrange(k + 1, n as int));
        }
        k = k + 1;
    }
    assert(orig.subrange(0, n as int) =~= orig);
    r
}

/// Only containers are rewritten: a gap edit exists only between adjacent named children of a
/// `document` or `element` node, never inside an interpolation or any other node.
pub proof fn lemma_gap_edit_domain(s: Seq<u8>, nodes: Seq<CstNode>, pres: bool, c: int, k: int)
    ensures
        gap_edit(s, nodes, pres, c, k) is Some ==> 0 <= c < nodes.len() && is_container(
            nodes[c].kind,
        ) && 0 <= k && k + 1 < nodes[c].named_children@.len(),
{
    reveal(gap_edit);
}

/// Add the edits of the gaps between the named children of container `c`, in order.
fn process_container_gaps(source: &str, tree: &Cst, c: usize, config: &StripConfig, edits: &mut Vec<Edit>)
    requires
        c < tree.nodes@.len(),
        is_container(tree.nodes@[c as int].kind),
    ensures
        final(edits)@.len() >= old(edits)@.len(),
        final(edits)@.subrange(0, old(edits)@.len() as int) == old(edits)@,
        forall|i: int|
            old(edits)@.len() <= i < final(edits)@.len() ==> exists|k: int|
                gap_edit(source.spec_bytes(), tree.nodes@, config.preserve_blank_lines, c as int, k)
                    == Some(#[trigger] final(edits)@[i].model()),
        forall|k: int|
            (#[trigger] gap_edit(
                source.spec_bytes(),
                tree.nodes@,
                config.preserve_blank_lines,
                c as int,
                k,
            )) is Some ==> exists|i: int|
                0 <= i < final(edits)@.len() && final(edits)@[i].model() == gap_edit(
                    source.spec_bytes(),
                    tree.nodes@,
                    config.preserve_blank_lines,
                    c as int,
                    k,
                )->Some_0,
{
    let ghost s = source.spec_bytes();
    let ghost nodes = tree.nodes@;
    let ghost pres = config.preserve_blank_lines;
    let ghost orig = edits@;
    let m = tree.nodes[c].named_children.len();
    let mut k: usize = 0;
    assert(edits@.subrange(0, orig.len() as int) =~= orig);
    while m > 0 && k < m - 1
        invariant
            nodes == tree.nodes@,
            s == source.spec_bytes(),
            pres == config.preserve_blank_lines,
            c < nodes.len(),
            is_container(nodes[c as int].kind),
            m == nodes[c as int].named_children@.len(),
            k <= m || m == 0,
            orig == old(edits)@,
            edits@.len() >= orig.len(),
            edits@.subrange(0, orig.len() as int) == orig,
            forall|i: int|
                orig.len() <= i < edits@.len() ==> exists|k2: int|
                    gap_edit(s, nodes, pres, c as int, k2) == Some(#[trigger] edits@[i].model()),
            forall|k2: int|
                0 <= k2 < k && (#[trigger] gap_edit(s, nodes, pres, c as int, k2)) is Some ==> exists|
                    i: int,
                |
                    0 <= i < edits@.len() && edits@[i].model() == gap_edit(
                        s,
                        nodes,
                        pres,
                        c as int,
                        k2,
                    )->Some_0,
        decreases m - k,
    {
        let ghost before = edits@;
        match gap_edit_at(source, tree, c, k, config) {
            Some(e) => {
                edits.push(e);
                proof {
                    assert(edits@.subrange(0, orig.len() as int) =~= before.subrange(
                        0,
                        orig.len() as int,
                    ));
                    assert forall|i: int| orig.len() <= i < edits@.len() implies exists|k2: int|
                        gap_edit(s, nodes, pres, c as int, k2) == Some(
                            #[trigger] edits@[i].model(),
                        ) by {
                        if i < before.len() {
                            assert(edits@[i] == before[i]);
                        } else {
                            assert(gap_edit(s, nodes, pres, c as int, k as int) == Some(
                                edits@[i].model(),
                            ));
                        }
                    }
                    assert forall|k2: int|
                        0 <= k2 < k + 1 && (#[trigger] gap_edit(s, nodes, pres, c as int, k2)) is Some implies exists|
                        i: int,
                    |
                        0 <= i < edits@.len() && edits@[i].model() == gap_edit(
                            s,
                            nodes,
                            pres,
                            c as int,
                            k2,
                        )->Some_0 by {
                        if k2 == k {
                            assert(edits@[before.len() as int] == e);
                        } else {
                            let j = choose|j: int|
                                0 <= j < before.len() && before[j].model() == gap_edit(
                                    s,
                                    nodes,
                                    pres,
                                    c as int,
                                    k2,
                                )->Some_0;
                            assert(edits@[j] == before[j]);
                        }
                    }
                }
            },
            None => {},
        }
        k = k + 1;
    }
    proof {
        assert forall|k2: int| (#[trigger] gap_edit(s, nodes, pres, c as int, k2)) is Some implies 0
            <= k2 < k by {
            lemma_gap_edit_domain(s, nodes, pres, c as int, k2);
        }
        assert forall|i: int| orig.len() <= i < edits@.len() implies exists|k2: int|
            gap_edit(source.spec_bytes(), tree.nodes@, config.preserve_blank_lines, c as int, k2)
                == Some(#[trigger] edits@[i].model()) by {
            let k3 = choose|k3: int|
                gap_edit(s, nodes, pres, c as int, k3) == Some(#[trigger] edits@[i].model());
            assert(gap_edit(source.spec_bytes(), tree.nodes@, config.preserve_blank_lines, c as int, k3)
                == Some(edits@[i].model()));
        }
    }
}

/// Walk the tree and collect the edits of every gap of every container, sorted by start, end
/// and replacement length.
pub fn collect_edits(source: &str, tree: &Cst, config: &StripConfig) -> (r: Vec<Edit>)
    ensures
        is_gap_edit_list(source.spec_bytes(), tree.nodes@, config.preserve_blank_lines, r@),
{
    let ghost s = source.spec_bytes();
    let ghost nodes = tree.nodes@;
    let ghost pres = config.preserve_blank_lines;
    let n = tree.nodes.len();
    let mut edits: Vec<Edit> = Vec::new();
    let mut c: usize = 0;
    while c < n
        invariant
            n == nodes.len(),
            nodes == tree.nodes@,
            s == source.spec_bytes(),
            pres == config.preserve_blank_lines,
            0 <= c <= n,
            forall|i: int|
                0 <= i < edits@.len() ==> exists|c2: int, k2: int|
                    gap_edit(s, nodes, pres, c2, k2) == Some(#[trigger] edits@[i].model()),
            forall|c2: int, k2: int|
                0 <= c2 < c && (#[trigger] gap_edit(s, nodes, pres, c2, k2)) is Some ==> exists|i: int|
                    0 <= i < edits@.len() && edits@[i].model() == gap_edit(
                        s,
                        nodes,
                        pres,
                        c2,
                        k2,
                    )->Some_0,
        decreases n - c,
    {
        let kind = tree.nodes[c].kind;
        let ghost before = edits@;
        if kind == NodeKind::Document || kind == NodeKind::Element {
            process_container_gaps(source, tree, c, config, &mut edits);
            proof {
                assert forall|i: int| 0 <= i < edits@.len() implies exists|c2: int, k2: int|
                    gap_edit(s, nodes, pres, c2, k2) == Some(#[trigger] edits@[i].model()) by {
                    if i < before.len() {
                        assert(edits@[i] == edits@.subrange(0, before.len() as int)[i]);
                        assert(edits@[i] == before[i]);
                    } else {
                        let k3 = choose|k3: int|
                            gap_edit(s, nodes, pres, c as int, k3) == Some(#[trigger] edits@[i].model());
                        assert(gap_edit(s, nodes, pres, c as int, k3) == Some(edits@[i].model()));
                    }
                }
                assert forall|c2: int, k2: int|
                    0 <= c2 < c + 1 && (#[trigger] gap_edit(s, nodes, pres, c2, k2)) is Some implies exists|
                    i: int,
                |
                    0 <= i < edits@.len() && edits@[i].model() == gap_edit(
                        s,
                        nodes,
                        pres,
                        c2,
                        k2,
                    )->Some_0 by {
                    if c2 < c {
                        let i0 = choose|i0: int|
                            0 <= i0 < before.len() && before[i0].model() == gap_edit(
                                s,
                                nodes,
                                pres,
                                c2,
                                k2,
                            )->Some_0;
                        assert(edits@[i0] == edits@.subrange(0, before.len() as int)[i0]);
                    }
                }
            }
        } else {
            proof {
                assert forall|c2: int, k2: int|
                    0 <= c2 < c + 1 && (#[trigger] gap_edit(s, nodes, pres, c2, k2)) is Some implies c2
                    < c by {
                    lemma_gap_edit_domain(s, nodes, pres, c2, k2);
                }
            }
        }
        c = c + 1;
    }
    let sorted = sort_edits(edits);
    proof {
        assert forall|c2: int, k2: int|
            (#[trigger] gap_edit(s, nodes, pres, c2, k2)) is Some implies exists|i: int|
            0 <= i < sorted@.len() && sorted@[i].model() == gap_edit(s, nodes, pres, c2, k2)->Some_0 by {
            lemma_gap_edit_domain(s, nodes, pres, c2, k2);
            let i0 = choose|i0: int|
                0 <= i0 < edits@.len() && edits@[i0].model() == gap_edit(s, nodes, pres, c2, k2)->Some_0;
            let i = choose|i: int| 0 <= i < sorted@.len() && sorted@[i].model() == (#[trigger] edits@[i0]).model();
            assert(sorted@[i].model() == gap_edit(s, nodes, pres, c2, k2)->Some_0);
        }
        assert forall|i: int| 0 <= i < sorted@.len() implies exists|c2: int, k2: int|
            gap_edit(s, nodes, pres, c2, k2) == Some(#[trigger] sorted@[i].model()) by {
            let i0 = choose|i0: int| 0 <= i0 < edits@.len() && edits@[i0].model() == (#[trigger] sorted@[i]).model();
            let (c3, k3) = choose|c3: int, k3: int|
                gap_edit(s, nodes, pres, c3, k3) == Some(#[trigger] edits@[i0].model());
            assert(gap_edit(s, nodes, pres, c3, k3) == Some(sorted@[i].model()));
        }
    }
    sorted
}

/// Both ends of `[a, b)` are character boundaries of `s`.
#[verifier::opaque]
pub open spec fn on_boundaries(s: Seq<u8>, a: int, b: int) -> bool {
    is_char_boundary(s, a) && is_char_boundary(s, b)
}

proof fn lemma_gap_edit_bounds(s: Seq<u8>, nodes: Seq<CstNode>, pres: bool, c: int, k: int)
    requires
        gap_edit(s, nodes, pres, c, k) is Some,
    ensures
        ({
            let m = gap_edit(s, nodes, pres, c, k)->Some_0;
            &&& 0 <= m.start < m.end <= s.len()
            &&& on_boundaries(s, m.start, m.end)
        }),
{
    reveal(gap_edit);
    reveal(on_boundaries);
}

/// The output of the first `n` edits, up to the end of edit `n - 1`.
pub open spec fn applied_upto(s: Seq<u8>, edits: Seq<Edit>, n: int) -> Seq<u8>
    decreases n,
{
    if n <= 0 {
        seq![]
    } else {
        let e = edits[n - 1];
        let prev_end = if n >= 2 {
            edits[n - 2].end as int
        } else {
            0
        };
        applied_upto(s, edits, n - 1) + s.subrange(prev_end, e.start as int) + e.repl_bytes()
    }
}

/// The input `s` with the sorted, non-overlapping `edits` applied: unchanged runs between the
/// edits, each edit's replacement in place of its span.
pub open spec fn apply_spec(s: Seq<u8>, edits: Seq<Edit>) -> Seq<u8> {
    let n = edits.len() as int;
    let last_end = if n > 0 {
        edits[n - 1].end as int
    } else {
        0
    };
    applied_upto(s, edits, n) + s.subrange(last_end, s.len() as int)
}

/// `edits` is the sorted list of the gap edits of the tree: each is the edit of some gap, every
/// gap's edit is there, and no edit is repeated.
pub open spec fn is_gap_edit_list(s: Seq<u8>, nodes: Seq<CstNode>, pres: bool, edits: Seq<Edit>) -> bool {
    &&& sorted_edits(edits)
    &&& distinct_edits(edits)
    &&& forall|i: int|
        0 <= i < edits.len() ==> exists|c: int, k: int|
            gap_edit(s, nodes, pres, c, k) == Some(#[trigger] edits[i].model())
    &&& forall|c: int, k: int|
        (#[trigger] gap_edit(s, nodes, pres, c, k)) is Some ==> exists|i: int|
            0 <= i < edits.len() && edits[i].model() == gap_edit(s, nodes, pres, c, k)->Some_0
}

/// Stripping `s` with the tree `nodes` gives `out`: the gap edits are valid and `out` is `s` with
/// them applied.
pub open spec fn stripped(s: Seq<u8>, nodes: Seq<CstNode>, pres: bool, out: Seq<u8>) -> bool {
    exists|edits: Seq<Edit>|
        #[trigger] is_gap_edit_list(s, nodes, pres, edits) && valid_edits(s.len() as int, edits)
            && out == apply_spec(s, edits)
}

/// The gap edits of the tree break the edit invariants (they overlap).
pub open spec fn strip_fails(s: Seq<u8>, nodes: Seq<CstNode>, pres: bool) -> bool {
    exists|edits: Seq<Edit>|
        #[trigger] is_gap_edit_list(s, nodes, pres, edits) && !valid_edits(s.len() as int, edits)
}

/// `e` is the error [`validate_edits`] gives for `edits`: the first edit that breaks the
/// invariants decides between `OverlappingEdits` (with both ranges) and `InvalidEdit`.
pub open spec fn validation_error(input_len: int, edits: Seq<Edit>, e: StripError) -> bool {
    exists|i: int|
        {
            &&& #[trigger] crate::edit::first_bad_edit(input_len, edits, i)
            &&& crate::edit::overlap_at(input_len, edits, i) ==> e == (StripError::OverlappingEdits {
                a_start: edits[i - 1].start,
                a_end: edits[i - 1].end,
                b_start: edits[i].start,
                b_end: edits[i].end,
            })
            &&& !crate::edit::overlap_at(input_len, edits, i) ==> e is InvalidEdit
        }
}

/// Stripping fails with `e`: it is the validation error of the gap edit list of the tree.
pub open spec fn strip_error(s: Seq<u8>, nodes: Seq<CstNode>, pres: bool, e: StripError) -> bool {
    exists|edits: Seq<Edit>|
        #[trigger] is_gap_edit_list(s, nodes, pres, edits) && validation_error(s.len() as int, edits, e)
}

/// The gap edits of the tree meet the edit invariants, so stripping succeeds.
pub open spec fn strip_succeeds(s: Seq<u8>, nodes: Seq<CstNode>, pres: bool) -> bool {
    exists|edits: Seq<Edit>|
        #[trigger] is_gap_edit_list(s, nodes, pres, edits) && valid_edits(s.len() as int, edits)
}

proof fn lemma_valid_chain(len: int, e: Seq<Edit>, p: int, q: int)
    requires
        valid_edits(len, e),
        0 <= p < q < e.len(),
    ensures
        e[p].end <= e[q].start,
    decreases q - p,
{
    assert(edit_ok_at(len, e, q));
    if q > p + 1 {
        lemma_valid_chain(len, e, p, q - 1);
        assert(edit_ok_at(len, e, q - 1));
    }
}

proof fn lemma_agree_at(
    s: Seq<u8>,
    nodes: Seq<CstNode>,
    pres: bool,
    e: Seq<Edit>,
    ours: Seq<Edit>,
    i: int,
)
    requires
        is_gap_edit_list(s, nodes, pres, e),
        valid_edits(s.len() as int, e),
        is_gap_edit_list(s, nodes, pres, ours),
        0 <= i < ours.len(),
    ensures
        edit_ok_at(s.len() as int, ours, i),
{
    let len = s.len() as int;
    let (c, k) = choose|c: int, k: int|
        gap_edit(s, nodes, pres, c, k) == Some(#[trigger] ours[i].model());
    let p = choose|p: int|
        0 <= p < e.len() && e[p].model() == gap_edit(s, nodes, pres, c, k)->Some_0;
    assert(edit_ok_at(len, e, p));
    assert(ours[i].origins() == e[p].origins());
    assert(ours[i].repl_bytes() == e[p].repl_bytes());
    if i > 0 {
        let (c2, k2) = choose|c2: int, k2: int|
            gap_edit(s, nodes, pres, c2, k2) == Some(#[trigger] ours[i - 1].model());
        let q = choose|q: int|
            0 <= q < e.len() && e[q].model() == gap_edit(s, nodes, pres, c2, k2)->Some_0;
        lemma_gap_edit_bounds(s, nodes, pres, c, k);
        assert(ours[i - 1].model() != ours[i].model());
        assert(edit_le(ours[i - 1].model(), ours[i].model()));
        if q < p {
            lemma_valid_chain(len, e, q, p);
        } else {
            lemma_valid_chain(len, e, p, q);
        }
    }
}

/// Whether the gap edits meet the edit invariants does not depend on which list of them is
/// taken: if one gap edit list is valid, every gap edit list is.
pub proof fn lemma_gap_lists_agree(
    s: Seq<u8>,
    nodes: Seq<CstNode>,
    pres: bool,
    e: Seq<Edit>,
    ours: Seq<Edit>,
)
    requires
        is_gap_edit_list(s, nodes, pres, e),
        valid_edits(s.len() as int, e),
        is_gap_edit_list(s, nodes, pres, ours),
    ensures
        valid_edits(s.len() as int, ours),
{
    assert forall|i: int| 0 <= i < ours.len() implies #[trigger] edit_ok_at(s.len() as int, ours, i) by {
        lemma_agree_at(s, nodes, pres, e, ours, i);
    }
}

/// Stripping either succeeds or fails: the two outcomes exclude each other.
pub proof fn lemma_strip_outcomes_exclusive(s: Seq<u8>, nodes: Seq<CstNode>, pres: bool)
    ensures
        !(strip_succeeds(s, nodes, pres) && strip_fails(s, nodes, pres)),
{
    if strip_succeeds(s, nodes, pres) && strip_fails(s, nodes, pres) {
        let e = choose|e: Seq<Edit>|
            #[trigger] is_gap_edit_list(s, nodes, pres, e) && valid_edits(s.len() as int, e);
        let f = choose|f: Seq<Edit>|
            #[trigger] is_gap_edit_list(s, nodes, pres, f) && !valid_edits(s.len() as int, f);
        lemma_gap_lists_agree(s, nodes, pres, e, f);
    }
}

/// Apply sorted, non-overlapping edits whose ends are character boundaries of `source`.
pub fn apply_edits(source: &str, edits: &[Edit]) -> (r: String)
    requires
        valid_edits(source.spec_bytes().len() as int, edits@),
        forall|i: int|
            0 <= i < edits@.len() ==> on_boundaries(
                source.spec_bytes(),
                #[trigger] edits@[i].start as int,
                edits@[i].end as int,
            ),
    ensures
        encode_utf8(r@) == apply_spec(source.spec_bytes(), edits@),
{
    broadcast use vstd::utf8::group_utf8_lib;

    let ghost s = source.spec_bytes();
    let len = source.as_bytes().len();
    let n = edits.len();
    let mut out = String::new();
    let mut cursor: usize = 0;
    let mut i: usize = 0;
    proof {
        assert(is_char_boundary(s, 0));
    }
    while i < n
        invariant
            s == source.spec_bytes(),
            len == s.len(),
            n == edits@.len(),
            valid_edits(len as int, edits@),
            forall|q: int|
                0 <= q < edits@.len() ==> on_boundaries(
                    s,
                    #[trigger] edits@[q].start as int,
                    edits@[q].end as int,
                ),
            0 <= i <= n,
            i == 0 ==> cursor == 0,
            i > 0 ==> cursor == edits@[i - 1].end,
            cursor <= len,
            is_char_boundary(s, cursor as int),
            encode_utf8(out@) == applied_upto(s, edits@, i as int),
        decreases n - i,
    {
        let e = &edits[i];
        proof {
            assert(edit_ok_at(len as int, edits@, i as int));
            assert(on_boundaries(s, edits@[i as int].start as int, edits@[i as int].end as int));
            reveal(on_boundaries);
            assert(is_char_boundary(s, edits@[i as int].start as int));
            assert(is_char_boundary(s, edits@[i as int].end as int));
        }
        let piece = substr(source, cursor, e.start);
        let ghost before = out@;
        out.append(piece);
        out.append(e.replacement.as_str());
        proof {
            lemma_encode_concat(before, piece@);
            lemma_encode_concat(before + piece@, e.replacement@);
            assert(before + piece@ + e.replacement@ == out@);
        }
        cursor = e.end;
        i = i + 1;
    }
    proof {
        assert(is_char_boundary(s, len as int));
    }
    let tail = substr(source, cursor, len);
    let ghost before = out@;
    out.append(tail);
    proof {
        lemma_encode_concat(before, tail@);
    }
    out
}

proof fn lemma_gap_list_bounds(s: Seq<u8>, nodes: Seq<CstNode>, pres: bool, edits: Seq<Edit>)
    requires
        is_gap_edit_list(s, nodes, pres, edits),
    ensures
        forall|i: int|
            0 <= i < edits.len() ==> on_boundaries(
                s,
                #[trigger] edits[i].start as int,
                edits[i].end as int,
            ),
{
    assert forall|i: int| 0 <= i < edits.len() implies on_boundaries(
        s,
        #[trigger] edits[i].start as int,
        edits[i].end as int,
    ) by {
        let (c, k) = choose|c: int, k: int|
            gap_edit(s, nodes, pres, c, k) == Some(#[trigger] edits[i].model());
        lemma_gap_edit_bounds(s, nodes, pres, c, k);
    }
}

/// Collect the gap edits of the tree, validate them, and apply them to `source`.
///
/// Returns the output and the edits; fails only when the gap edits break the edit invariants.
pub fn rewrite(source: &str, tree: &Cst, config: &StripConfig) -> (r: Result<
    (String, Vec<Edit>),
    StripError,
>)
    ensures
        r matches Ok((out, edits)) ==> {
            &&& is_gap_edit_list(
                source.spec_bytes(),
                tree.nodes@,
                config.preserve_blank_lines,
                edits@,
            )
            &&& valid_edits(source.spec_bytes().len() as int, edits@)
            &&& encode_utf8(out@) == apply_spec(source.spec_bytes(), edits@)
            &&& source.spec_bytes().len() <= usize::MAX
        },
        r is Err ==> strip_fails(source.spec_bytes(), tree.nodes@, config.preserve_blank_lines),
        strip_succeeds(source.spec_bytes(), tree.nodes@, config.preserve_blank_lines) ==> r is Ok,
        r matches Err(e) ==> strip_error(
            source.spec_bytes(),
            tree.nodes@,
            config.preserve_blank_lines,
            e,
        ),
{
    let ghost s = source.spec_bytes();
    let edits = collect_edits(source, tree, config);
    let len = source.as_bytes().len();
    match validate_edits(len, edits.as_slice()) {
        Ok(()) => {},
        Err(e) => {
            assert(is_gap_edit_list(s, tree.nodes@, config.preserve_blank_lines, edits@));
            proof {
                lemma_strip_outcomes_exclusive(s, tree.nodes@, config.preserve_blank_lines);
                assert(validation_error(len as int, edits@, e));
                assert(strip_error(s, tree.nodes@, config.preserve_blank_lines, e));
            }
            return Err(e);
        },
    }
    proof {
        lemma_gap_list_bounds(s, tree.nodes@, config.preserve_blank_lines, edits@);
    }
    let out = apply_edits(source, edits.as_slice());
    Ok((out, edits))
}

/// Strip inter-node whitespace, without a source map.
///
/// `tree` is the parse of `source`, or `None` when the parser produced no tree; then the result
/// is `ParseFailed` and nothing else is computed.
pub fn strip_astro_whitespace_no_sourcemap(
    source: &str,
    tree: Option<&Cst>,
    config: &StripConfig,
) -> (r: Result<String, StripError>)
    ensures
        tree is None <==> r matches Err(StripError::ParseFailed),
        tree matches Some(t) ==> (r matches Ok(out) ==> stripped(
            source.spec_bytes(),
            t.nodes@,
            config.preserve_blank_lines,
            encode_utf8(out@),
        )),
        tree matches Some(t) ==> (r is Err ==> strip_fails(
            source.spec_bytes(),
            t.nodes@,
            config.preserve_blank_lines,
        )),
        tree matches Some(t) ==> (strip_succeeds(
            source.spec_bytes(),
            t.nodes@,
            config.preserve_blank_lines,
        ) ==> r is Ok),
        tree matches Some(t) ==> (r matches Err(e) ==> strip_error(
            source.spec_bytes(),
            t.nodes@,
            config.preserve_blank_lines,
            e,
        )),
{
    match tree {
        None => Err(StripError::ParseFailed),
        Some(t) => match rewrite(source, t, config) {
            Ok((code, edits)) => {
                assert(is_gap_edit_list(
                    source.spec_bytes(),
                    t.nodes@,
                    config.preserve_blank_lines,
                    edits@,
                ));
                Ok(code)
            },
            Err(e) => Err(e),
        },
    }
}

proof fn lemma_gap_edit_len(s: Seq<u8>, nodes: Seq<CstNode>, pres: bool, c: int, k: int)
    requires
        gap_edit(s, nodes, pres, c, k) is Some,
    ensures
        ({
            let m = gap_edit(s, nodes, pres, c, k)->Some_0;
            m.bytes.len() == m.end - m.start
        }),
{
    reveal(gap_edit);
    let pi = nodes[c].named_children@[k] as int;
    let ni = nodes[c].named_children@[k + 1] as int;
    let gs = nodes[pi].end_byte as int;
    let ge = nodes[ni].start_byte as int;
    let g = s.subrange(gs, ge);
    let td = trailing_delim_of(nodes, pi, nodes.len() as int);
    if td is Some {
        let d = td->Some_0;
        lemma_steal_count_bound(g, last_line_start(g, g.len() as int), g.len() as int, d.max_steal());
        lemma_last_line_start_bound(g, g.len() as int);
    }
}

proof fn lemma_gap_list_len(s: Seq<u8>, nodes: Seq<CstNode>, pres: bool, edits: Seq<Edit>, i: int)
    requires
        is_gap_edit_list(s, nodes, pres, edits),
        0 <= i <= edits.len(),
    ensures
        crate::edit::added_before(edits, i) == crate::edit::removed_before(edits, i),
    decreases i,
{
    if i > 0 {
        lemma_gap_list_len(s, nodes, pres, edits, i - 1);
        let (c, k) = choose|c: int, k: int|
            gap_edit(s, nodes, pres, c, k) == Some(#[trigger] edits[i - 1].model());
        lemma_gap_edit_len(s, nodes, pres, c, k);
    }
}

proof fn lemma_gap_list_fits(s: Seq<u8>, nodes: Seq<CstNode>, pres: bool, edits: Seq<Edit>)
    requires
        s.len() <= usize::MAX,
        is_gap_edit_list(s, nodes, pres, edits),
        valid_edits(s.len() as int, edits),
    ensures
        crate::edit::edits_fit(s.len() as int, edits),
{
    assert forall|i: int| 0 <= i < edits.len() implies #[trigger] crate::edit::out_end_of(edits, i)
        <= usize::MAX by {
        lemma_gap_list_len(s, nodes, pres, edits, i);
        let (c, k) = choose|c: int, k: int|
            gap_edit(s, nodes, pres, c, k) == Some(#[trigger] edits[i].model());
        lemma_gap_edit_len(s, nodes, pres, c, k);
        assert(edit_ok_at(s.len() as int, edits, i));
    }
    lemma_gap_list_len(s, nodes, pres, edits, edits.len() as int);
    crate::edit::lemma_removed_bound(s.len() as int, edits, edits.len() as int);
}

/// Stripping `source` with the tree `nodes` gives `code` by the gap edits `edits`, and `json` is
/// the new source map of `code` against `source` under `filename`, over the indexes `oi` and
/// `ii`.
pub open spec fn stripped_with_map<'a>(
    source: &str,
    nodes: Seq<CstNode>,
    pres: bool,
    code: Seq<u8>,
    json: Seq<char>,
    filename: &'a str,
    edits: Seq<Edit>,
    oi: crate::utf16::Utf16Index,
    ii: crate::utf16::Utf16Index,
) -> bool {
    &&& is_gap_edit_list(source.spec_bytes(), nodes, pres, edits)
    &&& valid_edits(source.spec_bytes().len() as int, edits)
    &&& code == apply_spec(source.spec_bytes(), edits)
    &&& crate::edit::created_json(json, oi, ii, source, code, filename, edits)
}

/// The stripped code and its source map.
#[derive(Debug, Clone, PartialEq, Eq)]
pub struct CodeAndSourcemap {
    /// The rewritten template.
    pub code: String,
    /// The source map, as JSON.
    pub sourcemap: String,
}

/// Strip inter-node whitespace and create a new source map of the result, which maps back to
/// `source` under the name `source_filename`.
///
/// `tree` is the parse of `source`, or `None` when the parser produced no tree; then the result
/// is `ParseFailed` and nothing else is computed.
pub fn strip_astro_whitespace(
    source: &str,
    tree: Option<&Cst>,
    source_filename: &str,
    config: &StripConfig,
) -> (r: Result<CodeAndSourcemap, StripError>)
    ensures
        tree is None <==> r matches Err(StripError::ParseFailed),
        tree matches Some(t) ==> (r matches Ok(out) ==> exists|
            edits: Seq<Edit>,
            oi: crate::utf16::Utf16Index,
            ii: crate::utf16::Utf16Index,
        |
            #[trigger] stripped_with_map(
                source,
                t.nodes@,
                config.preserve_blank_lines,
                encode_utf8(out.code@),
                out.sourcemap@,
                source_filename,
                edits,
                oi,
                ii,
            )),
        tree matches Some(t) ==> (r is Err ==> strip_fails(
            source.spec_bytes(),
            t.nodes@,
            config.preserve_blank_lines,
        )),
        tree matches Some(t) ==> (strip_succeeds(
            source.spec_bytes(),
            t.nodes@,
            config.preserve_blank_lines,
        ) ==> r is Ok),
        tree matches Some(t) ==> (r matches Err(e) ==> strip_error(
            source.spec_bytes(),
            t.nodes@,
            config.preserve_blank_lines,
            e,
        )),
{
    match tree {
        None => Err(StripError::ParseFailed),
        Some(t) => match rewrite(source, t, config) {
            Ok((code, edits)) => {
                proof {
                    lemma_gap_list_fits(
                        source.spec_bytes(),
                        t.nodes@,
                        config.preserve_blank_lines,
                        edits@,
                    );
                }
                let sourcemap = crate::edit::create_sourcemap(
                    source,
                    code.as_str(),
                    source_filename,
                    edits.as_slice(),
                );
                match sourcemap {
                    Ok(sourcemap) => {
                        let ghost jv = sourcemap@;
                        let ghost cv = encode_utf8(code@);
                        let r: Result<CodeAndSourcemap, StripError> = Ok(CodeAndSourcemap { code, sourcemap });
                        proof {
                            assert(r->Ok_0.sourcemap@ == jv && encode_utf8(r->Ok_0.code@) == cv);
                            let (oi, ii) = choose|oi: crate::utf16::Utf16Index, ii: crate::utf16::Utf16Index|
                                #[trigger] crate::edit::created_json(jv, oi, ii, source, cv, source_filename, edits@);
                            assert(stripped_with_map(
                                source,
                                t.nodes@,
                                config.preserve_blank_lines,
                                encode_utf8(r->Ok_0.code@),
                                r->Ok_0.sourcemap@,
                                source_filename,
                                edits@,
                                oi,
                                ii,
                            ));
                        }
                        r
                    },
                    Err(e) => Err(e),
                }
            },
            Err(e) => Err(e),
        },
    }
}

/// With blank lines preserved, a gap that holds an empty line (`\n\n` or `\r\n\r\n`) gets no
/// edit.
pub proof fn lemma_blank_line_gap_kept(s: Seq<u8>, nodes: Seq<CstNode>, c: int, k: int)
    requires
        0 <= c < nodes.len(),
        0 <= k,
        k + 1 < nodes[c].named_children@.len(),
        nodes[c].named_children@[k] < nodes.len(),
        nodes[c].named_children@[k + 1] < nodes.len(),
        ({
            let gs = nodes[nodes[c].named_children@[k] as int].end_byte as int;
            let ge = nodes[nodes[c].named_children@[k + 1] as int].start_byte as int;
            gs <= ge <= s.len() && has_blank_line(s.subrange(gs, ge))
        }),
    ensures
        gap_edit(s, nodes, true, c, k) is None,
{
    reveal(gap_edit);
}

/// A rotation only rearranges bytes: the replacement of a gap edit holds the same bytes, counted
/// with multiplicity, as the input span it replaces. No whitespace is dropped; the stolen
/// indentation is moved, not removed.
pub proof fn lemma_gap_edit_keeps_bytes(s: Seq<u8>, nodes: Seq<CstNode>, pres: bool, c: int, k: int)
    requires
        gap_edit(s, nodes, pres, c, k) is Some,
    ensures
        ({
            let m = gap_edit(s, nodes, pres, c, k)->Some_0;
            m.bytes.to_multiset() == s.subrange(m.start, m.end).to_multiset()
        }),
{
    reveal(gap_edit);
    broadcast use vstd::seq_lib::lemma_multiset_commutative;

    let m = gap_edit(s, nodes, pres, c, k)->Some_0;
    let pi = nodes[c].named_children@[k] as int;
    let ni = nodes[c].named_children@[k + 1] as int;
    let gs = nodes[pi].end_byte as int;
    let ge = nodes[ni].start_byte as int;
    let g = s.subrange(gs, ge);
    let td = trailing_delim_of(nodes, pi, nodes.len() as int);
    let dl = if td is Some {
        td->Some_0.spec_bytes().len() as int
    } else {
        0
    };
    if td is Some && gs >= dl && s.subrange(gs - dl, gs) == td->Some_0.spec_bytes()
        && is_char_boundary(s, gs - dl) {
        let d = td->Some_0;
        let n = g.len() as int;
        let kk = stolen(d, g);
        lemma_steal_count_bound(g, last_line_start(g, n), n, d.max_steal());
        lemma_last_line_start_bound(g, n);
        let a = g.subrange(n - kk, n);
        let b = g.subrange(0, n - kk);
        assert(g =~= b + a);
        assert(s.subrange(gs - dl, ge) =~= d.spec_bytes() + g);
        assert(m.bytes == a + b + d.spec_bytes());
        assert((a + b + d.spec_bytes()).to_multiset() =~= (d.spec_bytes() + (b + a)).to_multiset());
    } else {
        let pe = opener_end_of(s, nodes, ni, nodes.len() as int)->Some_0;
        let p = s.subrange(ge, pe);
        assert(s.subrange(gs, pe) =~= g + p);
        assert(m.bytes == p + g);
        assert((p + g).to_multiset() =~= (g + p).to_multiset());
    }
}

/// Each of `bytes` comes from a distinct byte of `s[start..end]` that holds the same value.
pub open spec fn faithful_origins(
    s: Seq<u8>,
    start: int,
    end: int,
    bytes: Seq<u8>,
    origins: Seq<Option<usize>>,
) -> bool {
    &&& origins.len() == bytes.len()
    &&& forall|j: int|
        0 <= j < origins.len() ==> (#[trigger] origins[j]) is Some && start <= origins[j]->Some_0
            < end && bytes[j] == s[origins[j]->Some_0 as int]
    &&& forall|j1: int, j2: int|
        0 <= j1 < origins.len() && 0 <= j2 < origins.len() && j1 != j2 ==> #[trigger] origins[j1]
            != #[trigger] origins[j2]
}

proof fn lemma_delim_origins(s: Seq<u8>, gs: int, ge: int, d: TrailingDelim)
    requires
        s.len() <= usize::MAX,
        d.spec_bytes().len() <= gs <= ge <= s.len(),
        s.subrange(gs - d.spec_bytes().len(), gs) == d.spec_bytes(),
    ensures
        faithful_origins(
            s,
            gs - d.spec_bytes().len(),
            ge,
            rotated_delim(d, s.subrange(gs, ge)),
            shift_origins(
                rotated_delim_origins(d, s.subrange(gs, ge)),
                gs - d.spec_bytes().len(),
            ),
        ),
{
    let g = s.subrange(gs, ge);
    let dl = d.spec_bytes().len() as int;
    let n = g.len() as int;
    let kk = stolen(d, g);
    lemma_steal_count_bound(g, last_line_start(g, n), n, d.max_steal());
    lemma_last_line_start_bound(g, n);
    let o = rotated_delim_origins(d, g);
    let bytes = rotated_delim(d, g);
    let origins = shift_origins(o, gs - dl);
    let a = g.subrange(n - kk, n);
    let b = g.subrange(0, n - kk);
    assert(bytes == a + b + d.spec_bytes());
    assert forall|j: int| 0 <= j < n + dl implies o[j] as int == (if j < kk {
        dl + n - kk + j
    } else if j < n {
        dl + j - kk
    } else {
        j - n
    }) && bytes[j] == s[gs - dl + o[j]] by {
        if j < kk {
            assert(bytes[j] == a[j]);
        } else if j < n {
            assert(bytes[j] == b[j - kk]);
        } else {
            assert(bytes[j] == d.spec_bytes()[j - n]);
            assert(s.subrange(gs - dl, gs)[j - n] == s[gs - dl + j - n]);
        }
    }
    assert forall|j: int| 0 <= j < origins.len() implies (#[trigger] origins[j]) is Some && gs
        - dl <= origins[j]->Some_0 < ge && bytes[j] == s[origins[j]->Some_0 as int] by {
        assert(origins[j] == Some((o[j] + gs - dl) as usize));
    }
    assert forall|j1: int, j2: int|
        0 <= j1 < origins.len() && 0 <= j2 < origins.len() && j1 != j2 implies #[trigger] origins[j1]
        != #[trigger] origins[j2] by {
        assert(origins[j1] == Some((o[j1] + gs - dl) as usize));
        assert(origins[j2] == Some((o[j2] + gs - dl) as usize));
    }
}

proof fn lemma_prefix_origins(s: Seq<u8>, gs: int, ge: int, pe: int)
    requires
        s.len() <= usize::MAX,
        0 <= gs <= ge <= pe <= s.len(),
    ensures
        faithful_origins(
            s,
            gs,
            pe,
            s.subrange(ge, pe) + s.subrange(gs, ge),
            shift_origins(rotated_prefix_origins(pe - ge, ge - gs), gs),
        ),
{
    let p = pe - ge;
    let gl = ge - gs;
    let o = rotated_prefix_origins(p, gl);
    let g = s.subrange(gs, ge);
    let bytes = s.subrange(ge, pe) + g;
    let origins = shift_origins(o, gs);
    assert forall|j: int| 0 <= j < p + gl implies o[j] as int == (if j < p {
        gl + j
    } else {
        j - p
    }) && bytes[j] == s[gs + o[j]] by {
        if j < p {
            assert(bytes[j] == s.subrange(ge, pe)[j]);
        } else {
            assert(bytes[j] == g[j - p]);
        }
    }
    assert forall|j: int| 0 <= j < origins.len() implies (#[trigger] origins[j]) is Some && gs
        <= origins[j]->Some_0 < pe && bytes[j] == s[origins[j]->Some_0 as int] by {
        assert(origins[j] == Some((o[j] + gs) as usize));
    }
    assert forall|j1: int, j2: int|
        0 <= j1 < origins.len() && 0 <= j2 < origins.len() && j1 != j2 implies #[trigger] origins[j1]
        != #[trigger] origins[j2] by {
        assert(origins[j1] == Some((o[j1] + gs) as usize));
        assert(origins[j2] == Some((o[j2] + gs) as usize));
    }
}

/// Every byte of a gap edit's replacement comes from the input: its origin lies in the edit's
/// span and holds the same byte, and no two replacement bytes share an origin. With the equal
/// lengths, the origins are a permutation of the span.
pub proof fn lemma_gap_edit_origins(s: Seq<u8>, nodes: Seq<CstNode>, pres: bool, c: int, k: int)
    requires
        s.len() <= usize::MAX,
        gap_edit(s, nodes, pres, c, k) is Some,
    ensures
        ({
            let m = gap_edit(s, nodes, pres, c, k)->Some_0;
            faithful_origins(s, m.start, m.end, m.bytes, m.origins)
        }),
{
    reveal(gap_edit);
    let pi = nodes[c].named_children@[k] as int;
    let ni = nodes[c].named_children@[k + 1] as int;
    let gs = nodes[pi].end_byte as int;
    let ge = nodes[ni].start_byte as int;
    let td = trailing_delim_of(nodes, pi, nodes.len() as int);
    let dl = if td is Some {
        td->Some_0.spec_bytes().len() as int
    } else {
        0
    };
    if td is Some && gs >= dl && s.subrange(gs - dl, gs) == td->Some_0.spec_bytes()
        && is_char_boundary(s, gs - dl) {
        lemma_delim_origins(s, gs, ge, td->Some_0);
    } else {
        let pe = opener_end_of(s, nodes, ni, nodes.len() as int)->Some_0;
        lemma_prefix_origins(s, gs, ge, pe);
    }
}

proof fn lemma_applied_len(s: Seq<u8>, edits: Seq<Edit>, n: int)
    requires
        valid_edits(s.len() as int, edits),
        0 <= n <= edits.len(),
    ensures
        n > 0 ==> applied_upto(s, edits, n).len() == crate::edit::out_end_of(edits, n - 1),
        n == 0 ==> applied_upto(s, edits, n).len() == 0,
    decreases n,
{
    if n > 0 {
        lemma_applied_len(s, edits, n - 1);
        assert(edit_ok_at(s.len() as int, edits, n - 1));
        if n >= 2 {
            assert(edit_ok_at(s.len() as int, edits, n - 2));
        }
    }
}

proof fn lemma_applied_origin(s: Seq<u8>, edits: Seq<Edit>, n: int, o: int)
    requires
        valid_edits(s.len() as int, edits),
        forall|i: int|
            0 <= i < edits.len() ==> faithful_origins(
                s,
                #[trigger] edits[i].start as int,
                edits[i].end as int,
                edits[i].repl_bytes(),
                edits[i].origins(),
            ),
        0 < n <= edits.len(),
        0 <= o < crate::edit::out_end_of(edits, n - 1),
    ensures
        crate::edit::out_origin(s.len() as int, edits, n, o) matches Some(b) ==> applied_upto(
            s,
            edits,
            n,
        )[o] == s[b as int],
    decreases n,
{
    let len = s.len() as int;
    let e = edits[n - 1];
    let os = crate::edit::out_start_of(edits, n - 1);
    let prev_end = if n >= 2 {
        edits[n - 2].end as int
    } else {
        0
    };
    lemma_applied_len(s, edits, n - 1);
    assert(edit_ok_at(len, edits, n - 1));
    if n >= 2 {
        assert(edit_ok_at(len, edits, n - 2));
    }
    let prev = applied_upto(s, edits, n - 1);
    let mid = s.subrange(prev_end, e.start as int);
    assert(applied_upto(s, edits, n) == prev + mid + e.repl_bytes());
    if o >= os {
        assert(applied_upto(s, edits, n)[o] == e.repl_bytes()[o - os]);
    } else if o >= prev.len() {
        assert(applied_upto(s, edits, n)[o] == mid[o - prev.len()]);
        assert(crate::edit::out_origin(len, edits, n, o) == crate::edit::out_origin(
            len,
            edits,
            n - 1,
            o,
        ));
    } else {
        assert(applied_upto(s, edits, n)[o] == prev[o]);
        assert(crate::edit::out_origin(len, edits, n, o) == crate::edit::out_origin(
            len,
            edits,
            n - 1,
            o,
        ));
        lemma_applied_origin(s, edits, n - 1, o);
    }
}

/// Origins point at equal bytes: when the edits' own origins are faithful, every output byte
/// that has an origin is the input byte at that origin. This is the output-to-input table of
/// [`crate::edit::build_output_to_input_map`] read against the applied output.
pub proof fn lemma_output_matches_origins(s: Seq<u8>, edits: Seq<Edit>)
    requires
        s.len() <= usize::MAX,
        valid_edits(s.len() as int, edits),
        forall|i: int|
            0 <= i < edits.len() ==> faithful_origins(
                s,
                #[trigger] edits[i].start as int,
                edits[i].end as int,
                edits[i].repl_bytes(),
                edits[i].origins(),
            ),
    ensures
        forall|o: int|
            0 <= o < apply_spec(s, edits).len() && (#[trigger] crate::edit::origin_of(
                s.len() as int,
                edits,
                o,
            )) is Some ==> apply_spec(s, edits)[o] == s[crate::edit::origin_of(
                s.len() as int,
                edits,
                o,
            )->Some_0 as int],
{
    let len = s.len() as int;
    let n = edits.len() as int;
    lemma_applied_len(s, edits, n);
    assert forall|o: int|
        0 <= o < apply_spec(s, edits).len() && (#[trigger] crate::edit::origin_of(
            len,
            edits,
            o,
        )) is Some implies apply_spec(s, edits)[o] == s[crate::edit::origin_of(
        len,
        edits,
        o,
    )->Some_0 as int] by {
        let head = applied_upto(s, edits, n);
        let last_end = if n > 0 {
            edits[n - 1].end as int
        } else {
            0
        };
        if n > 0 {
            assert(edit_ok_at(len, edits, n - 1));
        }
        if o < head.len() {
            assert(apply_spec(s, edits)[o] == head[o]);
            lemma_applied_origin(s, edits, n, o);
        } else {
            assert(apply_spec(s, edits)[o] == s.subrange(last_end, len)[o - head.len()]);
            assert(s.subrange(last_end, len)[o - head.len()] == s[last_end + o - head.len()]);
        }
    }
}

/// The gap edits of a tree have faithful origins (see [`lemma_gap_edit_origins`]).
pub proof fn lemma_gap_list_faithful(s: Seq<u8>, nodes: Seq<CstNode>, pres: bool, edits: Seq<Edit>)
    requires
        s.len() <= usize::MAX,
        is_gap_edit_list(s, nodes, pres, edits),
    ensures
        forall|i: int|
            0 <= i < edits.len() ==> faithful_origins(
                s,
                #[trigger] edits[i].start as int,
                edits[i].end as int,
                edits[i].repl_bytes(),
                edits[i].origins(),
            ),
{
    assert forall|i: int| 0 <= i < edits.len() implies faithful_origins(
        s,
        #[trigger] edits[i].start as int,
        edits[i].end as int,
        edits[i].repl_bytes(),
        edits[i].origins(),
    ) by {
        let (c, k) = choose|c: int, k: int|
            gap_edit(s, nodes, pres, c, k) == Some(#[trigger] edits[i].model());
        lemma_gap_edit_origins(s, nodes, pres, c, k);
    }
}

} // verus!
