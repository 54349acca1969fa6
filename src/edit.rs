//! The edit model and source-map construction.
//!
//! An [`Edit`] replaces the input bytes `[start, end)` with `replacement`, and records for every
//! replacement byte the input byte it came from (`None` for an inserted byte). Edits are sorted
//! by `start` and do not overlap. From a list of edits this module derives where each edit lands
//! in the output, the output-to-input and input-to-output origin tables, and the mappings of a
//! new or rewritten source map, with columns in UTF-16 code units.
use crate::utf16::Utf16Index;
use crate::StripError;
use vstd::prelude::*;
use vstd::string::StringSliceAdditionalSpecFns;
use vstd::utf8::encode_utf8;

verus! {

/// A replacement of the input bytes `[start, end)`.
#[derive(Debug, Clone)]
pub struct Edit {
    /// Start byte offset (inclusive) in the input.
    pub start: usize,
    /// End byte offset (exclusive) in the input.
    pub end: usize,
    /// The text written in place of `input[start..end]`.
    pub replacement: String,
    /// For each byte of `replacement`, the input byte it came from, or `None` if inserted.
    pub output_byte_to_input_byte: Vec<Option<usize>>,
    /// When nonzero, the last `moved_delim_len` bytes of `replacement` are a delimiter moved from
    /// elsewhere in the edit's span; source maps anchor them explicitly.
    pub moved_delim_len: usize,
}

impl Edit {
    /// The bytes of the replacement.
    pub open spec fn repl_bytes(&self) -> Seq<u8> {
        encode_utf8(self.replacement@)
    }

    /// The origin table.
    pub open spec fn origins(&self) -> Seq<Option<usize>> {
        self.output_byte_to_input_byte@
    }

    /// The structural invariant of one edit over an input of `input_len` bytes.
    pub open spec fn well_formed(&self, input_len: int) -> bool {
        &&& self.start <= self.end <= input_len
        &&& self.origins().len() == self.repl_bytes().len()
        &&& self.moved_delim_len <= self.repl_bytes().len()
        &&& forall|k: int|
            0 <= k < self.origins().len() && (#[trigger] self.origins()[k]) is Some
                ==> self.origins()[k]->Some_0 < input_len
    }
}

/// Edit `i` is well formed and starts at or after the end of edit `i - 1`.
pub open spec fn edit_ok_at(input_len: int, edits: Seq<Edit>, i: int) -> bool {
    &&& edits[i].well_formed(input_len)
    &&& i > 0 ==> edits[i - 1].end <= edits[i].start
}

/// Every edit is well formed, and the edits are sorted and non-overlapping.
pub open spec fn valid_edits(input_len: int, edits: Seq<Edit>) -> bool {
    forall|i: int| 0 <= i < edits.len() ==> #[trigger] edit_ok_at(input_len, edits, i)
}

/// Edit `i` is the first that breaks the invariant.
pub open spec fn first_bad_edit(input_len: int, edits: Seq<Edit>, i: int) -> bool {
    &&& 0 <= i < edits.len()
    &&& !edit_ok_at(input_len, edits, i)
    &&& forall|j: int| 0 <= j < i ==> #[trigger] edit_ok_at(input_len, edits, j)
}

/// At the first bad edit `i`, the error is an overlap: its range is in order and in bounds, and
/// it starts before the previous edit ends.
pub open spec fn overlap_at(input_len: int, edits: Seq<Edit>, i: int) -> bool {
    &&& edits[i].start <= edits[i].end <= input_len
    &&& i > 0
    &&& edits[i].start < edits[i - 1].end
}

/// Check the invariants of an edit list over an input of `input_len` bytes.
///
/// The edits are checked in order; the first one that breaks an invariant decides the error:
/// `OverlappingEdits` when its range is sound but starts before the previous edit's end, and
/// `InvalidEdit` for anything else (start after end, out of bounds, an origin table whose
/// length differs from the replacement's, a moved delimiter longer than the replacement, an
/// origin out of bounds).
#[verifier::loop_isolation(false)]
pub fn validate_edits(input_len: usize, edits: &[Edit]) -> (r: Result<(), StripError>)
    ensures
        r is Ok <==> valid_edits(input_len as int, edits@),
        r is Err ==> exists|i: int|
            {
                &&& #[trigger] first_bad_edit(input_len as int, edits@, i)
                &&& overlap_at(input_len as int, edits@, i) ==> r == Err::<(), StripError>(
                    StripError::OverlappingEdits {
                        a_start: edits@[i - 1].start,
                        a_end: edits@[i - 1].end,
                        b_start: edits@[i].start,
                        b_end: edits@[i].end,
                    },
                )
                &&& !overlap_at(input_len as int, edits@, i) ==> r matches Err(
                    StripError::InvalidEdit(_),
                )
            },
{
    let n = edits.len();
    let mut idx: usize = 0;
    while idx < n
        invariant
            n == edits@.len(),
            0 <= idx <= n,
            forall|j: int| 0 <= j < idx ==> #[trigger] edit_ok_at(input_len as int, edits@, j),
        decreases n - idx,
    {
        let e = &edits[idx];
        if e.start > e.end {
            assert(first_bad_edit(input_len as int, edits@, idx as int));
            return Err(StripError::InvalidEdit(String::from_str("edit starts after its end")));
        }
        if e.end > input_len {
            assert(first_bad_edit(input_len as int, edits@, idx as int));
            return Err(StripError::InvalidEdit(String::from_str("edit ends past the input")));
        }
        if idx > 0 && e.start < edits[idx - 1].end {
            assert(first_bad_edit(input_len as int, edits@, idx as int));
            return Err(
                StripError::OverlappingEdits {
                    a_start: edits[idx - 1].start,
                    a_end: edits[idx - 1].end,
                    b_start: e.start,
                    b_end: e.end,
                },
            );
        }
        let repl_len = e.replacement.as_str().as_bytes().len();
        if e.output_byte_to_input_byte.len() != repl_len {
            assert(first_bad_edit(input_len as int, edits@, idx as int));
            return Err(
                StripError::InvalidEdit(
                    String::from_str("origin table length differs from the replacement's"),
                ),
            );
        }
        if e.moved_delim_len > repl_len {
            assert(first_bad_edit(input_len as int, edits@, idx as int));
            return Err(
                StripError::InvalidEdit(
                    String::from_str("moved delimiter longer than the replacement"),
                ),
            );
        }
        let m = e.output_byte_to_input_byte.len();
        let mut k: usize = 0;
        while k < m
            invariant
                m == e.origins().len(),
                0 <= k <= m,
                forall|q: int|
                    0 <= q < k && (#[trigger] e.origins()[q]) is Some ==> e.origins()[q]->Some_0
                        < input_len,
            decreases m - k,
        {
            if let Some(in_byte) = e.output_byte_to_input_byte[k] {
                if in_byte >= input_len {
                    assert(first_bad_edit(input_len as int, edits@, idx as int));
                    return Err(
                        StripError::InvalidEdit(String::from_str("origin past the input")),
                    );
                }
            }
            k = k + 1;
        }
        assert(edit_ok_at(input_len as int, edits@, idx as int));
        idx = idx + 1;
    }
    Ok(())
}

/// `starts` holds 0, then `i + 1` for every `\n` byte at index `i`, in order.
pub open spec fn is_line_starts_of(bytes: Seq<u8>, starts: Seq<usize>) -> bool {
    &&& starts.len() >= 1
    &&& starts[0] == 0
    &&& forall|i: int, j: int| 0 <= i < j < starts.len() ==> starts[i] < starts[j]
    &&& forall|k: int|
        1 <= k < starts.len() ==> 1 <= #[trigger] starts[k] <= bytes.len() && bytes[starts[k]
            - 1] == 10u8
    &&& forall|p: int|
        0 <= p < bytes.len() && #[trigger] bytes[p] == 10u8 ==> exists|k: int|
            1 <= k < starts.len() && #[trigger] starts[k] == p + 1
}

/// The line starts of `b[..i]`: `0`, then `j + 1` for every `\n` at `j < i`.
pub open spec fn line_starts_spec(b: Seq<u8>, i: int) -> Seq<usize>
    decreases i,
{
    if i <= 0 {
        seq![0usize]
    } else if b[i - 1] == 10u8 {
        line_starts_spec(b, i - 1).push(i as usize)
    } else {
        line_starts_spec(b, i - 1)
    }
}

/// The byte offsets at which the lines of `s` start: `0`, then `i + 1` for every `\n` at `i`.
pub fn compute_line_starts(s: &str) -> (r: Vec<usize>)
    ensures
        r@ == line_starts_spec(s.spec_bytes(), s.spec_bytes().len() as int),
        is_line_starts_of(s.spec_bytes(), r@),
        crate::utf16::valid_line_starts(s.spec_bytes(), r@),
{
    let bytes = s.as_bytes();
    let n = bytes.len();
    let mut starts: Vec<usize> = Vec::new();
    starts.push(0);
    let mut i: usize = 0;
    while i < n
        invariant
            n == bytes@.len(),
            bytes@ == s.spec_bytes(),
            0 <= i <= n,
            starts@ == line_starts_spec(bytes@, i as int),
            starts@.len() >= 1,
            starts@[0] == 0,
            forall|a: int, b: int| 0 <= a < b < starts@.len() ==> starts@[a] < starts@[b],
            forall|k: int| 0 <= k < starts@.len() ==> #[trigger] starts@[k] <= i,
            forall|k: int|
                1 <= k < starts@.len() ==> 1 <= #[trigger] starts@[k] <= n && bytes@[starts@[k]
                    - 1] == 10u8,
            forall|p: int|
                0 <= p < i && #[trigger] bytes@[p] == 10u8 ==> exists|k: int|
                    1 <= k < starts@.len() && #[trigger] starts@[k] == p + 1,
        decreases n - i,
    {
        let ghost prev = starts@;
        if bytes[i] == 10u8 {
            starts.push(i + 1);
            assert(starts@[starts@.len() - 1] == i + 1);
        }
        assert forall|p: int| 0 <= p < i + 1 && #[trigger] bytes@[p] == 10u8 implies exists|k: int|
            1 <= k < starts@.len() && #[trigger] starts@[k] == p + 1 by {
            if p < i {
                let k = choose|k: int| 1 <= k < prev.len() && #[trigger] prev[k] == p + 1;
                assert(starts@[k] == prev[k]);
            } else {
                assert(starts@[starts@.len() - 1] == p + 1);
            }
        }
        i = i + 1;
    }
    starts
}

/// Convert a (line, byte column) pair into an absolute byte offset: `None` when the line is out
/// of range.
pub fn line_col_to_byte(line_starts: &[usize], line: usize, col: usize) -> (r: Option<usize>)
    requires
        line < line_starts@.len() ==> line_starts@[line as int] + col <= usize::MAX,
    ensures
        line >= line_starts@.len() ==> r is None,
        line < line_starts@.len() ==> r == Some((line_starts@[line as int] + col) as usize),
{
    if line >= line_starts.len() {
        return None;
    }
    Some(line_starts[line] + col)
}

/// Convert an absolute byte offset into a (line, byte column) pair: the line is the last whose
/// start is at or before `byte`, and past the end of the text the column runs on past the final
/// line start.
pub fn byte_to_line_col(line_starts: &[usize], byte: usize) -> (r: (usize, usize))
    requires
        line_starts@.len() >= 1,
        forall|i: int, j: int|
            0 <= i < j < line_starts@.len() ==> line_starts@[i] < line_starts@[j],
    ensures
        line_starts@[0] <= byte ==> crate::utf16::is_line_of(line_starts@, byte as int, r.0 as int)
            && r.1 == byte - line_starts@[r.0 as int],
        line_starts@[0] > byte ==> r == (0usize, 0usize),
{
    if line_starts[0] > byte {
        return (0, 0);
    }
    let mut lo: usize = 0;
    let mut hi: usize = line_starts.len();
    while hi - lo > 1
        invariant
            0 <= lo < hi <= line_starts@.len(),
            line_starts@[lo as int] <= byte,
            hi < line_starts@.len() ==> byte < line_starts@[hi as int],
        decreases hi - lo,
    {
        let mid = lo + (hi - lo) / 2;
        if line_starts[mid] <= byte {
            lo = mid;
        } else {
            hi = mid;
        }
    }
    (lo, byte - line_starts[lo])
}

/// Bytes written by the edits before edit `i`.
pub open spec fn added_before(edits: Seq<Edit>, i: int) -> int
    decreases i,
{
    if i <= 0 {
        0
    } else {
        added_before(edits, i - 1) + edits[i - 1].repl_bytes().len()
    }
}

/// Input bytes replaced by the edits before edit `i`.
pub open spec fn removed_before(edits: Seq<Edit>, i: int) -> int
    decreases i,
{
    if i <= 0 {
        0
    } else {
        removed_before(edits, i - 1) + (edits[i - 1].end - edits[i - 1].start)
    }
}

/// Where edit `i` starts in the output.
pub open spec fn out_start_of(edits: Seq<Edit>, i: int) -> int {
    edits[i].start + added_before(edits, i) - removed_before(edits, i)
}

/// Where edit `i` ends in the output.
pub open spec fn out_end_of(edits: Seq<Edit>, i: int) -> int {
    out_start_of(edits, i) + edits[i].repl_bytes().len()
}

/// Length of the output that the edits produce from an input of `input_len` bytes.
pub open spec fn expected_out_len(input_len: int, edits: Seq<Edit>) -> int {
    input_len + added_before(edits, edits.len() as int) - removed_before(
        edits,
        edits.len() as int,
    )
}

/// The output fits in memory: every output position the edits produce fits in a `usize`.
pub open spec fn edits_fit(input_len: int, edits: Seq<Edit>) -> bool {
    &&& forall|i: int| 0 <= i < edits.len() ==> #[trigger] out_end_of(edits, i) <= usize::MAX
    &&& expected_out_len(input_len, edits) <= usize::MAX
}

/// The input byte that output byte `o` comes from, taking the first `n` edits into account:
/// identity before the first edit, the edit's origin table inside an edit (an origin past the
/// input counts as none), and a shifted identity between and after edits.
pub open spec fn out_origin(input_len: int, edits: Seq<Edit>, n: int, o: int) -> Option<usize>
    decreases n,
{
    if n <= 0 {
        if 0 <= o < input_len {
            Some(o as usize)
        } else {
            None
        }
    } else {
        let i = n - 1;
        let os = out_start_of(edits, i);
        let oe = out_end_of(edits, i);
        if o >= oe {
            let b = edits[i].end + (o - oe);
            if b < input_len {
                Some(b as usize)
            } else {
                None
            }
        } else if o >= os {
            let x = edits[i].origins()[o - os];
            if x is Some && x->Some_0 < input_len {
                x
            } else {
                None
            }
        } else {
            out_origin(input_len, edits, n - 1, o)
        }
    }
}

/// The input byte that output byte `o` comes from, after all edits.
pub open spec fn origin_of(input_len: int, edits: Seq<Edit>, o: int) -> Option<usize> {
    out_origin(input_len, edits, edits.len() as int, o)
}

/// Before edit `i` of a valid list, the replaced input bytes fit before the edit's start.
pub proof fn lemma_removed_bound(input_len: int, edits: Seq<Edit>, i: int)
    requires
        0 <= input_len,
        valid_edits(input_len, edits),
        0 <= i <= edits.len(),
    ensures
        0 <= removed_before(edits, i),
        i > 0 ==> removed_before(edits, i) <= edits[i - 1].end,
        i == 0 ==> removed_before(edits, i) == 0,
        0 <= added_before(edits, i),
        i < edits.len() ==> removed_before(edits, i) <= edits[i].start,
        removed_before(edits, i) <= input_len,
    decreases i,
{
    if i > 0 {
        lemma_removed_bound(input_len, edits, i - 1);
        assert(edit_ok_at(input_len, edits, i - 1));
        if i < edits.len() {
            assert(edit_ok_at(input_len, edits, i));
        }
    } else if edits.len() > 0 {
        assert(edit_ok_at(input_len, edits, 0));
    }
}

proof fn lemma_added_mono(edits: Seq<Edit>, i: int, j: int)
    requires
        0 <= i <= j <= edits.len(),
    ensures
        added_before(edits, i) <= added_before(edits, j),
    decreases j - i,
{
    if i < j {
        lemma_added_mono(edits, i, j - 1);
    }
}

proof fn lemma_spans_ordered(input_len: int, edits: Seq<Edit>, i: int, j: int)
    requires
        valid_edits(input_len, edits),
        0 <= i < j < edits.len(),
    ensures
        out_end_of(edits, i) <= out_start_of(edits, j),
    decreases j - i,
{
    assert(edit_ok_at(input_len, edits, j));
    if j > i + 1 {
        lemma_spans_ordered(input_len, edits, i, j - 1);
    }
}

proof fn lemma_origin_prefix(input_len: int, edits: Seq<Edit>, k: int, n: int, o: int)
    requires
        valid_edits(input_len, edits),
        0 < k <= n <= edits.len(),
        o < out_end_of(edits, k - 1),
    ensures
        out_origin(input_len, edits, n, o) == out_origin(input_len, edits, k, o),
    decreases n - k,
{
    if n > k {
        lemma_spans_ordered(input_len, edits, k - 1, n - 1);
        lemma_origin_prefix(input_len, edits, k, n - 1, o);
    }
}

/// Where each edit lands in the output, and the output length the edits produce.
pub fn compute_output_spans(input_len: usize, edits: &[Edit]) -> (r: (Vec<(usize, usize)>, usize))
    requires
        valid_edits(input_len as int, edits@),
        edits_fit(input_len as int, edits@),
    ensures
        r.0@.len() == edits@.len(),
        forall|i: int|
            0 <= i < edits@.len() ==> #[trigger] r.0@[i] == (
                out_start_of(edits@, i) as usize,
                out_end_of(edits@, i) as usize,
            ),
        r.1 == expected_out_len(input_len as int, edits@),
{
    let n = edits.len();
    let mut spans: Vec<(usize, usize)> = Vec::new();
    let mut out_cursor: usize = 0;
    let mut prev_end: usize = 0;
    let mut i: usize = 0;
    while i < n
        invariant
            n == edits@.len(),
            valid_edits(input_len as int, edits@),
            edits_fit(input_len as int, edits@),
            0 <= i <= n,
            i == 0 ==> out_cursor == 0 && prev_end == 0,
            i > 0 ==> out_cursor == out_end_of(edits@, i - 1) && prev_end == edits@[i - 1].end,
            spans@.len() == i,
            forall|k: int|
                0 <= k < i ==> #[trigger] spans@[k] == (
                    out_start_of(edits@, k) as usize,
                    out_end_of(edits@, k) as usize,
                ),
        decreases n - i,
    {
        let e = &edits[i];
        let repl_len = e.replacement.as_str().as_bytes().len();
        proof {
            lemma_removed_bound(input_len as int, edits@, i as int);
            assert(edit_ok_at(input_len as int, edits@, i as int));
            assert(out_end_of(edits@, i as int) <= usize::MAX);
        }
        let out_start = out_cursor + (e.start - prev_end);
        let out_end = out_start + repl_len;
        spans.push((out_start, out_end));
        out_cursor = out_end;
        prev_end = e.end;
        i = i + 1;
    }
    proof {
        lemma_removed_bound(input_len as int, edits@, n as int);
        if n > 0 {
            assert(edit_ok_at(input_len as int, edits@, n - 1));
        }
    }
    (spans, out_cursor + (input_len - prev_end))
}

/// The output-to-input origin table over the first `output_len` output bytes: entry `o` is the
/// input byte that output byte `o` comes from, or `None` for an inserted byte.
#[verifier::loop_isolation(false)]
#[verifier::rlimit(100)]
pub fn build_output_to_input_map(
    input_len: usize,
    output_len: usize,
    edits: &[Edit],
    spans: &[(usize, usize)],
) -> (r: Vec<Option<usize>>)
    requires
        valid_edits(input_len as int, edits@),
        edits_fit(input_len as int, edits@),
        spans@.len() == edits@.len(),
        forall|i: int|
            0 <= i < edits@.len() ==> #[trigger] spans@[i] == (
                out_start_of(edits@, i) as usize,
                out_end_of(edits@, i) as usize,
            ),
        output_len <= expected_out_len(input_len as int, edits@),
    ensures
        r@.len() == output_len,
        forall|o: int| 0 <= o < output_len ==> #[trigger] r@[o] == origin_of(input_len as int, edits@, o),
{
    let n = edits.len();
    let mut out_to_in: Vec<Option<usize>> = Vec::new();
    let mut z: usize = 0;
    while z < output_len
        invariant
            0 <= z <= output_len,
            out_to_in@.len() == z,
            forall|o: int| 0 <= o < z ==> #[trigger] out_to_in@[o] is None,
        decreases output_len - z,
    {
        out_to_in.push(None);
        z = z + 1;
    }
    let mut in_cursor: usize = 0;
    let mut out_cursor: usize = 0;
    let mut i: usize = 0;
    while i < n
        invariant
            n == edits@.len(),
            spans@.len() == n,
            valid_edits(input_len as int, edits@),
            edits_fit(input_len as int, edits@),
            forall|k: int|
                0 <= k < n ==> #[trigger] spans@[k] == (
                    out_start_of(edits@, k) as usize,
                    out_end_of(edits@, k) as usize,
                ),
            output_len <= expected_out_len(input_len as int, edits@),
            0 <= i <= n,
            out_to_in@.len() == output_len,
            i == 0 ==> in_cursor == 0 && out_cursor == 0,
            i > 0 ==> in_cursor == edits@[i - 1].end && out_cursor == out_end_of(edits@, i - 1),
            forall|o: int|
                0 <= o < output_len ==> #[trigger] out_to_in@[o] == if o < out_cursor {
                    origin_of(input_len as int, edits@, o)
                } else {
                    None
                },
        decreases n - i,
    {
        let e = &edits[i];
        let (out_start, out_end) = spans[i];
        proof {
            assert(edit_ok_at(input_len as int, edits@, i as int));
            lemma_removed_bound(input_len as int, edits@, i as int);
            lemma_added_mono(edits@, i as int + 1, n as int);
            if i > 0 {
                assert(edit_ok_at(input_len as int, edits@, i - 1));
            }
        }
        // Unchanged bytes before the edit.
        let gap_stop = if out_start < output_len { out_start } else { output_len };
        let mut o = out_cursor;
        while o < gap_stop
            invariant
                out_cursor <= o,
                o <= gap_stop || gap_stop < out_cursor,
                gap_stop <= out_start,
                out_start == out_start_of(edits@, i as int),
                out_start - out_cursor == e.start - in_cursor,
                in_cursor <= e.start,
                out_to_in@.len() == output_len,
                forall|q: int|
                    0 <= q < output_len ==> #[trigger] out_to_in@[q] == if q < out_cursor {
                        origin_of(input_len as int, edits@, q)
                    } else if q < o {
                        Some((in_cursor + (q - out_cursor)) as usize)
                    } else {
                        None
                    },
            decreases gap_stop - o,
        {
            out_to_in.set(o, Some(in_cursor + (o - out_cursor)));
            o = o + 1;
        }
        // The edit's own bytes.
        let m = e.output_byte_to_input_byte.len();
        let mut j: usize = 0;
        while j < m && out_start + j < output_len
            invariant
                m == e.origins().len(),
                0 <= j <= m,
                out_start == out_start_of(edits@, i as int),
                out_to_in@.len() == output_len,
                forall|q: int|
                    0 <= q < output_len ==> #[trigger] out_to_in@[q] == if q < out_cursor {
                        origin_of(input_len as int, edits@, q)
                    } else if q < out_start {
                        Some((in_cursor + (q - out_cursor)) as usize)
                    } else if q < out_start + j {
                        let x = e.origins()[q - out_start];
                        if x is Some && x->Some_0 < input_len {
                            x
                        } else {
                            None
                        }
                    } else {
                        None
                    },
            decreases m - j,
        {
            let x = e.output_byte_to_input_byte[j];
            let v = match x {
                Some(b) => if b < input_len {
                    Some(b)
                } else {
                    None
                },
                None => None,
            };
            out_to_in.set(out_start + j, v);
            j = j + 1;
        }
        proof {
            assert forall|q: int| 0 <= q < output_len implies #[trigger] out_to_in@[q] == if q
                < out_end {
                origin_of(input_len as int, edits@, q)
            } else {
                None
            } by {
                if q < out_end {
                    lemma_origin_prefix(input_len as int, edits@, i + 1, n as int, q);
                    if q < out_start {
                        assert(out_origin(input_len as int, edits@, i + 1, q) == out_origin(
                            input_len as int,
                            edits@,
                            i as int,
                            q,
                        ));
                        if q < out_cursor {
                            lemma_origin_prefix(input_len as int, edits@, i as int, n as int, q);
                        } else if i > 0 {
                            assert(out_origin(input_len as int, edits@, i as int, q) == Some(
                                (in_cursor + (q - out_cursor)) as usize,
                            ));
                        } else {
                            assert(out_origin(input_len as int, edits@, 0, q) == Some(
                                q as usize,
                            ));
                        }
                    }
                }
            }
        }
        in_cursor = e.end;
        out_cursor = out_end;
        i = i + 1;
    }
    // Unchanged bytes after the last edit.
    let mut o = out_cursor;
    proof {
        lemma_removed_bound(input_len as int, edits@, n as int);
    }
    while o < output_len
        invariant
            out_cursor <= o,
            o <= output_len || o == out_cursor,
            n == 0 ==> in_cursor == 0 && out_cursor == 0,
            n > 0 ==> in_cursor == edits@[n - 1].end && out_cursor == out_end_of(edits@, n - 1),
            output_len <= expected_out_len(input_len as int, edits@),
            out_to_in@.len() == output_len,
            forall|q: int|
                0 <= q < output_len ==> #[trigger] out_to_in@[q] == if q < o {
                    origin_of(input_len as int, edits@, q)
                } else {
                    None
                },
        decreases output_len - o,
    {
        out_to_in.set(o, Some(in_cursor + (o - out_cursor)));
        o = o + 1;
    }
    out_to_in
}

proof fn lemma_origin_in_gap(input_len: int, edits: Seq<Edit>, i: int, o: int)
    requires
        0 <= input_len,
        valid_edits(input_len, edits),
        0 <= i < edits.len(),
        i == 0 ==> 0 <= o,
        i > 0 ==> out_end_of(edits, i - 1) <= o,
        o < out_start_of(edits, i),
    ensures
        i == 0 ==> origin_of(input_len, edits, o) == Some(o as usize),
        i > 0 ==> origin_of(input_len, edits, o) == Some(
            (edits[i - 1].end + (o - out_end_of(edits, i - 1))) as usize,
        ),
{
    lemma_origin_prefix(input_len, edits, i + 1, edits.len() as int, o);
    assert(out_origin(input_len, edits, i + 1, o) == out_origin(input_len, edits, i, o));
    assert(edit_ok_at(input_len, edits, i));
    if i > 0 {
        assert(edit_ok_at(input_len, edits, i - 1));
    }
}

proof fn lemma_origin_in_edit(input_len: int, edits: Seq<Edit>, i: int, o: int)
    requires
        0 <= input_len,
        valid_edits(input_len, edits),
        0 <= i < edits.len(),
        out_start_of(edits, i) <= o < out_end_of(edits, i),
    ensures
        origin_of(input_len, edits, o) == edits[i].origins()[o - out_start_of(edits, i)],
{
    lemma_origin_prefix(input_len, edits, i + 1, edits.len() as int, o);
    assert(edit_ok_at(input_len, edits, i));
    let x = edits[i].origins()[o - out_start_of(edits, i)];
    if x is Some {
        assert(x->Some_0 < input_len);
    }
}

/// The input-to-output table: entry `b` is an output byte that comes from input byte `b`, or
/// `None` when no output byte (within the first `output_len`) comes from it.
#[verifier::loop_isolation(false)]
#[verifier::rlimit(100)]
pub fn build_input_to_output_map(
    input_len: usize,
    output_len: usize,
    edits: &[Edit],
    spans: &[(usize, usize)],
) -> (r: Vec<Option<usize>>)
    requires
        valid_edits(input_len as int, edits@),
        edits_fit(input_len as int, edits@),
        spans@.len() == edits@.len(),
        forall|i: int|
            0 <= i < edits@.len() ==> #[trigger] spans@[i] == (
                out_start_of(edits@, i) as usize,
                out_end_of(edits@, i) as usize,
            ),
        output_len <= expected_out_len(input_len as int, edits@),
    ensures
        r@.len() == input_len,
        forall|b: int|
            0 <= b < input_len && (#[trigger] r@[b]) is Some ==> r@[b]->Some_0 < output_len
                && origin_of(input_len as int, edits@, r@[b]->Some_0 as int) == Some(b as usize),
        forall|o: int|
            0 <= o < output_len && (#[trigger] origin_of(input_len as int, edits@, o)) is Some
                ==> origin_of(input_len as int, edits@, o)->Some_0 < input_len && r@[origin_of(
                input_len as int,
                edits@,
                o,
            )->Some_0 as int] is Some,
{
    let n = edits.len();
    let ghost len = input_len as int;
    let mut in_to_out: Vec<Option<usize>> = Vec::new();
    let mut z: usize = 0;
    while z < input_len
        invariant
            0 <= z <= input_len,
            in_to_out@.len() == z,
            forall|b: int| 0 <= b < z ==> #[trigger] in_to_out@[b] is None,
        decreases input_len - z,
    {
        in_to_out.push(None);
        z = z + 1;
    }
    let mut in_cursor: usize = 0;
    let mut out_cursor: usize = 0;
    let mut i: usize = 0;
    while i < n
        invariant
            0 <= i <= n,
            in_to_out@.len() == input_len,
            i == 0 ==> in_cursor == 0 && out_cursor == 0,
            i > 0 ==> in_cursor == edits@[i - 1].end && out_cursor == out_end_of(edits@, i - 1),
            forall|b: int|
                0 <= b < input_len && (#[trigger] in_to_out@[b]) is Some ==> in_to_out@[b]->Some_0
                    < output_len && in_to_out@[b]->Some_0 < out_cursor && origin_of(
                    len,
                    edits@,
                    in_to_out@[b]->Some_0 as int,
                ) == Some(b as usize),
            forall|o: int|
                0 <= o < output_len && o < out_cursor && (#[trigger] origin_of(
                    len,
                    edits@,
                    o,
                )) is Some ==> origin_of(len, edits@, o)->Some_0 < input_len && in_to_out@[origin_of(len, edits@, o)->Some_0 as int] is Some,
        decreases n - i,
    {
        let e = &edits[i];
        let (out_start, out_end) = spans[i];
        proof {
            assert(edit_ok_at(len, edits@, i as int));
            lemma_removed_bound(len, edits@, i as int);
            lemma_added_mono(edits@, i as int + 1, n as int);
            if i > 0 {
                assert(edit_ok_at(len, edits@, i - 1));
            }
        }
        let gap_stop = if out_start < output_len { out_start } else { output_len };
        let mut o = out_cursor;
        while o < gap_stop
            invariant
                out_cursor <= o,
                o <= gap_stop || o == out_cursor,
                in_to_out@.len() == input_len,
                forall|b: int|
                    0 <= b < input_len && (#[trigger] in_to_out@[b]) is Some
                        ==> in_to_out@[b]->Some_0 < output_len && in_to_out@[b]->Some_0 < o
                        && origin_of(len, edits@, in_to_out@[b]->Some_0 as int) == Some(
                        b as usize,
                    ),
                forall|q: int|
                    0 <= q < output_len && q < o && (#[trigger] origin_of(len, edits@, q)) is Some ==> origin_of(len, edits@, q)->Some_0 < input_len && in_to_out@[origin_of(len, edits@, q)->Some_0 as int] is Some,
            decreases gap_stop - o,
        {
            let b = in_cursor + (o - out_cursor);
            proof {
                lemma_origin_in_gap(len, edits@, i as int, o as int);
            }
            in_to_out.set(b, Some(o));
            o = o + 1;
        }
        let m = e.output_byte_to_input_byte.len();
        let mut j: usize = 0;
        while j < m && out_start + j < output_len
            invariant
                0 <= j <= m,
                m == e.origins().len(),
                in_to_out@.len() == input_len,
                forall|b: int|
                    0 <= b < input_len && (#[trigger] in_to_out@[b]) is Some
                        ==> in_to_out@[b]->Some_0 < output_len && in_to_out@[b]->Some_0 < out_start
                        + j && origin_of(len, edits@, in_to_out@[b]->Some_0 as int) == Some(
                        b as usize,
                    ),
                forall|q: int|
                    0 <= q < output_len && q < out_start + j && (#[trigger] origin_of(
                        len,
                        edits@,
                        q,
                    )) is Some ==> origin_of(len, edits@, q)->Some_0 < input_len && in_to_out@[origin_of(len, edits@, q)->Some_0 as int] is Some,
            decreases m - j,
        {
            proof {
                lemma_origin_in_edit(len, edits@, i as int, out_start + j);
            }
            if let Some(b) = e.output_byte_to_input_byte[j] {
                if b < input_len {
                    in_to_out.set(b, Some(out_start + j));
                }
            }
            j = j + 1;
        }
        in_cursor = e.end;
        out_cursor = out_end;
        i = i + 1;
    }
    proof {
        lemma_removed_bound(len, edits@, n as int);
    }
    let mut o = out_cursor;
    while o < output_len
        invariant
            out_cursor <= o,
            o <= output_len || o == out_cursor,
            in_to_out@.len() == input_len,
            forall|b: int|
                0 <= b < input_len && (#[trigger] in_to_out@[b]) is Some ==> in_to_out@[b]->Some_0
                    < output_len && origin_of(len, edits@, in_to_out@[b]->Some_0 as int) == Some(
                    b as usize,
                ),
            forall|q: int|
                0 <= q < output_len && q < o && (#[trigger] origin_of(len, edits@, q)) is Some ==> origin_of(len, edits@, q)->Some_0 < input_len && in_to_out@[origin_of(len, edits@, q)->Some_0 as int] is Some,
        decreases output_len - o,
    {
        let b = in_cursor + (o - out_cursor);
        proof {
            if n > 0 {
                assert(origin_of(len, edits@, o as int) == Some(b));
            } else {
                assert(origin_of(len, edits@, o as int) == Some(o));
            }
        }
        in_to_out.set(b, Some(o));
        o = o + 1;
    }
    in_to_out
}

/// A point mapping from an output position to an original position. Columns count UTF-16 code
/// units; an unmapped entry has `u32::MAX` source line and column and no source.
#[derive(Debug, Clone, Copy)]
pub struct Mapping<'a> {
    /// Destination line in the output.
    pub dst_line: u32,
    /// Destination column in the output.
    pub dst_col: u32,
    /// Original line, `u32::MAX` when unmapped.
    pub src_line: u32,
    /// Original column, `u32::MAX` when unmapped.
    pub src_col: u32,
    /// Original source name.
    pub source: Option<&'a str>,
    /// Original symbol name.
    pub name: Option<&'a str>,
}

/// The mapping points somewhere.
pub open spec fn is_mapped(m: Mapping) -> bool {
    m.src_line != u32::MAX
}

/// `a` comes before `b` by destination.
pub open spec fn dst_lt(a: Mapping, b: Mapping) -> bool {
    a.dst_line < b.dst_line || (a.dst_line == b.dst_line && a.dst_col < b.dst_col)
}

/// Among the first `j` mappings with destination `(line, col)`, the one kept: the first mapped
/// one if any, else the first one.
pub open spec fn pick(ms: Seq<Mapping>, j: int, line: u32, col: u32) -> Option<Mapping>
    decreases j,
{
    if j <= 0 {
        None
    } else {
        let prev = pick(ms, j - 1, line, col);
        let m = ms[j - 1];
        if m.dst_line != line || m.dst_col != col {
            prev
        } else {
            match prev {
                None => Some(m),
                Some(p) => if !is_mapped(p) && is_mapped(m) {
                    Some(m)
                } else {
                    Some(p)
                },
            }
        }
    }
}

/// The dedup state after the first `j` mappings of `ms`: sorted by destination, one entry per
/// destination seen, the one [`pick`] keeps.
pub open spec fn dedup_state(r: Seq<Mapping>, ms: Seq<Mapping>, j: int) -> bool {
    &&& forall|a: int, b: int| 0 <= a < b < r.len() ==> dst_lt(#[trigger] r[a], #[trigger] r[b])
    &&& forall|k: int|
        0 <= k < r.len() ==> pick(ms, j, (#[trigger] r[k]).dst_line, r[k].dst_col) == Some(r[k])
    &&& forall|line: u32, col: u32|
        (#[trigger] pick(ms, j, line, col)) is Some ==> exists|k: int|
            0 <= k < r.len() && r[k].dst_line == line && r[k].dst_col == col
}

#[verifier::rlimit(100)]
fn dedup_replace<'a>(
    r: &mut Vec<Mapping<'a>>,
    p: usize,
    m: Mapping<'a>,
    Ghost(ms): Ghost<Seq<Mapping<'a>>>,
    Ghost(j): Ghost<int>,
)
    requires
        0 <= j < ms.len(),
        ms[j] == m,
        dedup_state(old(r)@, ms, j),
        p <= old(r)@.len(),
        forall|a: int| 0 <= a < p ==> dst_lt(#[trigger] old(r)@[a], m),
        p < old(r)@.len(),
        old(r)@[p as int].dst_line == m.dst_line && old(r)@[p as int].dst_col == m.dst_col,
    ensures
        dedup_state(final(r)@, ms, j + 1),
{
    let ghost rb = r@;
    if r[p].src_line == u32::MAX && m.src_line != u32::MAX {
        r.set(p, m);
    }
    proof {
        assert forall|k: int| 0 <= k < r@.len() implies pick(
            ms,
            j + 1,
            (#[trigger] r@[k]).dst_line,
            r@[k].dst_col,
        ) == Some(r@[k]) by {
            if k != p {
                assert(r@[k] == rb[k]);
                assert(dst_lt(rb[k], rb[p as int]) || dst_lt(rb[p as int], rb[k]));
            }
        }
        assert forall|line: u32, col: u32|
            (#[trigger] pick(ms, j + 1, line, col)) is Some implies exists|k: int|
            0 <= k < r@.len() && r@[k].dst_line == line && r@[k].dst_col == col by {
            if line == m.dst_line && col == m.dst_col {
                assert(r@[p as int].dst_line == line && r@[p as int].dst_col == col);
            } else {
                assert(pick(ms, j + 1, line, col) == pick(ms, j, line, col));
                let k = choose|k: int|
                    0 <= k < rb.len() && rb[k].dst_line == line && rb[k].dst_col == col;
                if k == p {
                    assert(rb[k].dst_line == m.dst_line && rb[k].dst_col == m.dst_col);
                }
                assert(r@[k].dst_line == line && r@[k].dst_col == col);
            }
        }
    }
}

#[verifier::rlimit(100)]
fn dedup_insert<'a>(
    r: &mut Vec<Mapping<'a>>,
    p: usize,
    m: Mapping<'a>,
    Ghost(ms): Ghost<Seq<Mapping<'a>>>,
    Ghost(j): Ghost<int>,
)
    requires
        0 <= j < ms.len(),
        ms[j] == m,
        dedup_state(old(r)@, ms, j),
        p <= old(r)@.len(),
        forall|a: int| 0 <= a < p ==> dst_lt(#[trigger] old(r)@[a], m),
        p < old(r)@.len() ==> !(old(r)@[p as int].dst_line == m.dst_line && old(r)@[p as int].dst_col
            == m.dst_col) && !dst_lt(old(r)@[p as int], m),
    ensures
        dedup_state(final(r)@, ms, j + 1),
{
    let ghost rb = r@;
    proof {
        if pick(ms, j, m.dst_line, m.dst_col) is Some {
            let k = choose|k: int|
                0 <= k < rb.len() && rb[k].dst_line == m.dst_line && rb[k].dst_col
                    == m.dst_col;
            if k < p {
                assert(dst_lt(rb[k], m));
            } else {
                assert(p < rb.len());
                assert(k == p || dst_lt(rb[p as int], rb[k]));
            }
        }
    }
    r.insert(p, m);
    proof {
        assert forall|a: int, b: int| 0 <= a < b < r@.len() implies dst_lt(
            #[trigger] r@[a],
            #[trigger] r@[b],
        ) by {
            if b < p {
                assert(r@[a] == rb[a] && r@[b] == rb[b]);
            } else if b == p {
                assert(r@[a] == rb[a]);
            } else if a == p {
                assert(r@[b] == rb[b - 1]);
                assert(b - 1 == p || dst_lt(rb[p as int], rb[b - 1]));
            } else if a < p {
                assert(r@[a] == rb[a] && r@[b] == rb[b - 1]);
            } else {
                assert(r@[a] == rb[a - 1] && r@[b] == rb[b - 1]);
            }
        }
        assert forall|k: int| 0 <= k < r@.len() implies pick(
            ms,
            j + 1,
            (#[trigger] r@[k]).dst_line,
            r@[k].dst_col,
        ) == Some(r@[k]) by {
            if k < p {
                assert(r@[k] == rb[k]);
            } else if k > p {
                assert(r@[k] == rb[k - 1]);
            }
        }
        assert forall|line: u32, col: u32|
            (#[trigger] pick(ms, j + 1, line, col)) is Some implies exists|k: int|
            0 <= k < r@.len() && r@[k].dst_line == line && r@[k].dst_col == col by {
            if line == m.dst_line && col == m.dst_col {
                assert(r@[p as int].dst_line == line && r@[p as int].dst_col == col);
            } else {
                assert(pick(ms, j + 1, line, col) == pick(ms, j, line, col));
                let k = choose|k: int|
                    0 <= k < rb.len() && rb[k].dst_line == line && rb[k].dst_col == col;
                if k < p {
                    assert(r@[k] == rb[k]);
                } else {
                    assert(r@[k + 1] == rb[k]);
                }
            }
        }
    }
}

fn merge_mapping<'a>(
    r: &mut Vec<Mapping<'a>>,
    m: Mapping<'a>,
    Ghost(ms): Ghost<Seq<Mapping<'a>>>,
    Ghost(j): Ghost<int>,
)
    requires
        0 <= j < ms.len(),
        ms[j] == m,
        dedup_state(old(r)@, ms, j),
    ensures
        dedup_state(final(r)@, ms, j + 1),
{
    let mut p: usize = 0;
    while p < r.len() && (r[p].dst_line < m.dst_line || (r[p].dst_line == m.dst_line
        && r[p].dst_col < m.dst_col))
        invariant
            0 <= p <= r@.len(),
            forall|a: int| 0 <= a < p ==> dst_lt(#[trigger] r@[a], m),
        decreases r@.len() - p,
    {
        p = p + 1;
    }
    if p < r.len() && r[p].dst_line == m.dst_line && r[p].dst_col == m.dst_col {
        dedup_replace(r, p, m, Ghost(ms), Ghost(j));
    } else {
        dedup_insert(r, p, m, Ghost(ms), Ghost(j));
    }
}

/// Sort mappings by destination and keep one per destination: the first mapped one if any,
/// else the first one.
pub fn sort_and_dedup_mappings<'a>(mappings: &mut Vec<Mapping<'a>>)
    ensures
        forall|i: int, j: int|
            0 <= i < j < final(mappings)@.len() ==> dst_lt(
                #[trigger] final(mappings)@[i],
                #[trigger] final(mappings)@[j],
            ),
        forall|k: int|
            0 <= k < final(mappings)@.len() ==> pick(
                old(mappings)@,
                old(mappings)@.len() as int,
                (#[trigger] final(mappings)@[k]).dst_line,
                final(mappings)@[k].dst_col,
            ) == Some(final(mappings)@[k]),
        forall|line: u32, col: u32|
            (#[trigger] pick(old(mappings)@, old(mappings)@.len() as int, line, col)) is Some
                ==> exists|k: int|
                0 <= k < final(mappings)@.len() && final(mappings)@[k].dst_line == line
                    && final(mappings)@[k].dst_col == col,
{
    let ghost ms = mappings@;
    let n = mappings.len();
    let mut r: Vec<Mapping> = Vec::new();
    let mut j: usize = 0;
    while j < n
        invariant
            ms == mappings@,
            n == ms.len(),
            0 <= j <= n,
            dedup_state(r@, ms, j as int),
        decreases n - j,
    {
        let m = mappings[j];
        merge_mapping(&mut r, m, Ghost(ms), Ghost(j as int));
        j = j + 1;
    }
    *mappings = r;
}

/// The mapping anchored at output byte `o`: its output position, and the input position of its
/// origin with `filename` as source, or unmapped when it has none.
pub open spec fn anchor_mapping<'a>(
    out_idx: Utf16Index,
    in_idx: Utf16Index,
    out_to_in: Seq<Option<usize>>,
    filename: &'a str,
    o: int,
) -> Mapping<'a> {
    let (ol, oc) = out_idx.pos_of(o);
    let x = if 0 <= o < out_to_in.len() {
        out_to_in[o]
    } else {
        None
    };
    if x is Some {
        let (il, ic) = in_idx.pos_of(x->Some_0 as int);
        Mapping {
            dst_line: ol as u32,
            dst_col: oc as u32,
            src_line: il as u32,
            src_col: ic as u32,
            source: Some(filename),
            name: None,
        }
    } else {
        Mapping {
            dst_line: ol as u32,
            dst_col: oc as u32,
            src_line: u32::MAX,
            src_col: u32::MAX,
            source: None,
            name: None,
        }
    }
}

/// The mapping at the start of output line `l`, which starts at byte `o`.
pub open spec fn line_anchor_mapping<'a>(
    in_idx: Utf16Index,
    out_to_in: Seq<Option<usize>>,
    in_len: int,
    filename: &'a str,
    l: int,
    o: int,
) -> Mapping<'a> {
    let x = out_to_in[o];
    if x is Some && x->Some_0 < in_len {
        let (il, ic) = in_idx.pos_of(x->Some_0 as int);
        Mapping {
            dst_line: l as u32,
            dst_col: 0,
            src_line: il as u32,
            src_col: ic as u32,
            source: Some(filename),
            name: None,
        }
    } else {
        Mapping {
            dst_line: l as u32,
            dst_col: 0,
            src_line: u32::MAX,
            src_col: u32::MAX,
            source: None,
            name: None,
        }
    }
}

/// The number of leading line starts below `bound`, from line `i` on.
pub open spec fn lines_below(starts: Seq<usize>, bound: int, i: int) -> int
    decreases starts.len() - i,
{
    if 0 <= i < starts.len() && starts[i] < bound {
        lines_below(starts, bound, i + 1)
    } else {
        i
    }
}

/// The output bytes anchored around the first `n` edits: the segment start; for a moved
/// delimiter its first byte, its last byte when it is longer than one byte, and the byte after
/// it; each only when it lies below `map_len`.
pub open spec fn edit_anchor_points(
    edits: Seq<Edit>,
    spans: Seq<(usize, usize)>,
    map_len: int,
    n: int,
) -> Seq<int>
    decreases n,
{
    if n <= 0 {
        seq![]
    } else {
        let e = edits[n - 1];
        let os = spans[n - 1].0 as int;
        let oe = spans[n - 1].1 as int;
        let d = e.moved_delim_len as int;
        edit_anchor_points(edits, spans, map_len, n - 1) + (if os < map_len {
            seq![os]
        } else {
            seq![]
        }) + (if d > 0 && oe >= d && oe - d < map_len {
            seq![oe - d]
        } else {
            seq![]
        }) + (if d > 1 && oe >= d && oe - 1 < map_len {
            seq![oe - 1]
        } else {
            seq![]
        }) + (if d > 0 && oe < map_len {
            seq![oe]
        } else {
            seq![]
        })
    }
}

fn anchor<'a>(
    out_idx: &Utf16Index,
    in_idx: &Utf16Index,
    out_to_in: &[Option<usize>],
    filename: &'a str,
    o: usize,
) -> (r: Mapping<'a>)
    requires
        out_idx.wf(),
        in_idx.wf(),
    ensures
        r == anchor_mapping(*out_idx, *in_idx, out_to_in@, filename, o as int),
{
    let (ol, oc) = out_idx.byte_to_line_utf16_col(o);
    let x = if o < out_to_in.len() {
        out_to_in[o]
    } else {
        None
    };
    match x {
        Some(b) => {
            let (il, ic) = in_idx.byte_to_line_utf16_col(b);
            Mapping {
                dst_line: ol as u32,
                dst_col: oc as u32,
                src_line: il as u32,
                src_col: ic as u32,
                source: Some(filename),
                name: None,
            }
        },
        None => Mapping {
            dst_line: ol as u32,
            dst_col: oc as u32,
            src_line: u32::MAX,
            src_col: u32::MAX,
            source: None,
            name: None,
        },
    }
}

/// The mappings of a new source map: one at the start of every output line below `map_len`,
/// then the anchors around every edit (see [`edit_anchor_points`]).
pub fn create_mappings<'a>(
    out_idx: &Utf16Index,
    in_idx: &Utf16Index,
    out_starts: &[usize],
    out_to_in: &[Option<usize>],
    in_len: usize,
    map_len: usize,
    edits: &[Edit],
    spans: &[(usize, usize)],
    filename: &'a str,
) -> (r: Vec<Mapping<'a>>)
    requires
        out_idx.wf(),
        in_idx.wf(),
        out_to_in@.len() == map_len,
        spans@.len() == edits@.len(),
    ensures
        r@ == Seq::new(
            lines_below(out_starts@, map_len as int, 0) as nat,
            |l: int|
                line_anchor_mapping(
                    *in_idx,
                    out_to_in@,
                    in_len as int,
                    filename,
                    l,
                    out_starts@[l] as int,
                ),
        ) + edit_anchor_points(edits@, spans@, map_len as int, edits@.len() as int).map_values(
            |o: int| anchor_mapping(*out_idx, *in_idx, out_to_in@, filename, o),
        ),
{
    let mut r: Vec<Mapping<'a>> = Vec::new();
    let mut l: usize = 0;
    while l < out_starts.len() && out_starts[l] < map_len
        invariant
            in_idx.wf(),
            out_to_in@.len() == map_len,
            0 <= l <= out_starts@.len(),
            lines_below(out_starts@, map_len as int, 0) == lines_below(
                out_starts@,
                map_len as int,
                l as int,
            ),
            r@ == Seq::new(
                l as nat,
                |q: int|
                    line_anchor_mapping(
                        *in_idx,
                        out_to_in@,
                        in_len as int,
                        filename,
                        q,
                        out_starts@[q] as int,
                    ),
            ),
        decreases out_starts@.len() - l,
    {
        let o = out_starts[l];
        let m = match out_to_in[o] {
            Some(b) => if b < in_len {
                let (il, ic) = in_idx.byte_to_line_utf16_col(b);
                Mapping {
                    dst_line: l as u32,
                    dst_col: 0,
                    src_line: il as u32,
                    src_col: ic as u32,
                    source: Some(filename),
                    name: None,
                }
            } else {
                Mapping {
                    dst_line: l as u32,
                    dst_col: 0,
                    src_line: u32::MAX,
                    src_col: u32::MAX,
                    source: None,
                    name: None,
                }
            },
            None => Mapping {
                dst_line: l as u32,
                dst_col: 0,
                src_line: u32::MAX,
                src_col: u32::MAX,
                source: None,
                name: None,
            },
        };
        r.push(m);
        l = l + 1;
        assert(r@ =~= Seq::new(
            l as nat,
            |q: int|
                line_anchor_mapping(
                    *in_idx,
                    out_to_in@,
                    in_len as int,
                    filename,
                    q,
                    out_starts@[q] as int,
                ),
        ));
    }
    let ghost line_part = r@;
    let n = edits.len();
    let mut i: usize = 0;
    while i < n
        invariant
            out_idx.wf(),
            in_idx.wf(),
            n == edits@.len(),
            spans@.len() == n,
            0 <= i <= n,
            r@ == line_part + edit_anchor_points(edits@, spans@, map_len as int, i as int).map_values(
                |o: int| anchor_mapping(*out_idx, *in_idx, out_to_in@, filename, o),
            ),
        decreases n - i,
    {
        let ghost before = edit_anchor_points(edits@, spans@, map_len as int, i as int);
        let (os, oe) = spans[i];
        let d = edits[i].moved_delim_len;
        let ghost mut pts = before;
        if os < map_len {
            r.push(anchor(out_idx, in_idx, out_to_in, filename, os));
            proof { pts = pts + seq![os as int]; }
        }
        if d > 0 && oe >= d && oe - d < map_len {
            r.push(anchor(out_idx, in_idx, out_to_in, filename, oe - d));
            proof { pts = pts + seq![(oe - d) as int]; }
        }
        if d > 1 && oe >= d && oe - 1 < map_len {
            r.push(anchor(out_idx, in_idx, out_to_in, filename, oe - 1));
            proof { pts = pts + seq![(oe - 1) as int]; }
        }
        if d > 0 && oe < map_len {
            r.push(anchor(out_idx, in_idx, out_to_in, filename, oe));
            proof { pts = pts + seq![oe as int]; }
        }
        i = i + 1;
        proof {
            assert(pts =~= edit_anchor_points(edits@, spans@, map_len as int, i as int));
            assert(r@ =~= line_part + pts.map_values(
                |o: int| anchor_mapping(*out_idx, *in_idx, out_to_in@, filename, o),
            ));
        }
    }
    r
}

/// The mappings of a new map for output positions below `map_len`, as [`create_mappings`] builds
/// them over the indexes `oi` (output) and `ii` (input), the origins of the edits and their
/// output spans.
pub open spec fn created_mappings<'a>(
    oi: Utf16Index,
    ii: Utf16Index,
    in_len: int,
    map_len: int,
    filename: &'a str,
    edits: Seq<Edit>,
) -> Seq<Mapping<'a>> {
    let out_to_in = Seq::new(map_len as nat, |o: int| origin_of(in_len, edits, o));
    let spans = Seq::new(
        edits.len(),
        |i: int| (out_start_of(edits, i) as usize, out_end_of(edits, i) as usize),
    );
    Seq::new(
        lines_below(oi.starts(), map_len, 0) as nat,
        |l: int| line_anchor_mapping(ii, out_to_in, in_len, filename, l, oi.starts()[l] as int),
    ) + edit_anchor_points(edits, spans, map_len, edits.len() as int).map_values(
        |o: int| anchor_mapping(oi, ii, out_to_in, filename, o),
    )
}

/// The tokens are sorted by destination line and column.
pub open spec fn sorted_by_dst(toks: Seq<crate::smap::TokenDesc>) -> bool {
    forall|i: int, j: int|
        0 <= i < j < toks.len() ==> (#[trigger] toks[i]).0 < (#[trigger] toks[j]).0 || (toks[i].0
            == toks[j].0 && toks[i].1 <= toks[j].1)
}

/// `j` is the JSON text of a map built by adding the mappings `ms` in order to a builder whose
/// sources start as `sources0` and whose contents are `contents`: its tokens are those of `ms`
/// sorted by destination, its names and sources are registered in order of first use.
pub open spec fn json_of_mappings(
    j: Seq<char>,
    ms: Seq<Mapping>,
    sources0: Seq<Seq<char>>,
    contents: Seq<Option<Seq<char>>>,
) -> bool {
    exists|toks: Seq<crate::smap::TokenDesc>|
        #[trigger] sorted_by_dst(toks) && toks.to_multiset() == ms.map_values(
            |m: Mapping| crate::smap::token_of(m),
        ).to_multiset() && j == crate::smap::map_json(
            toks,
            crate::smap::registered(
                Seq::empty(),
                ms.map_values(|m: Mapping| crate::smap::token_of(m).5),
            ),
            crate::smap::registered(sources0, ms.map_values(|m: Mapping| crate::smap::token_of(m).4)),
            contents,
        )
}

/// The index `idx` indexes the text `t` by its line starts.
pub open spec fn indexes(idx: Utf16Index, t: Seq<u8>) -> bool {
    idx.text() == t && idx.starts() == line_starts_spec(t, t.len() as int)
}

/// `j` is the JSON of the new map of `output` against `input` named `filename`: the mappings of
/// [`created_mappings`] (below the output length the edits account for), the one source
/// `filename`, and `input` as its content.
pub open spec fn created_json<'a>(
    j: Seq<char>,
    oi: Utf16Index,
    ii: Utf16Index,
    input: &str,
    outb: Seq<u8>,
    filename: &'a str,
    edits: Seq<Edit>,
) -> bool {
    let inb = input.spec_bytes();
    let expected = expected_out_len(inb.len() as int, edits);
    let map_len = if outb.len() < expected {
        outb.len() as int
    } else {
        expected
    };
    &&& indexes(oi, outb)
    &&& indexes(ii, inb)
    &&& json_of_mappings(
        j,
        created_mappings(oi, ii, inb.len() as int, map_len, filename, edits),
        seq![filename@],
        seq![Some(input@)],
    )
}

proof fn lemma_registered_push(init: Seq<Seq<char>>, xs: Seq<Option<Seq<char>>>, x: Option<Seq<char>>)
    ensures
        crate::smap::registered(init, xs.push(x)) == crate::smap::register(
            crate::smap::registered(init, xs),
            x,
        ),
{
    assert(xs.push(x).drop_last() =~= xs);
}

/// Create a new source map for `output_code` that maps back to `input_code`, named
/// `source_filename` and with the input inlined as its content. Its mappings are those of
/// [`create_mappings`] over the whole output, or over the prefix that the edits account for when
/// the output is longer. Always succeeds.
pub fn create_sourcemap(
    input_code: &str,
    output_code: &str,
    source_filename: &str,
    edits: &[Edit],
) -> (r: Result<String, StripError>)
    requires
        valid_edits(input_code.spec_bytes().len() as int, edits@),
        edits_fit(input_code.spec_bytes().len() as int, edits@),
    ensures
        r is Ok,
        r matches Ok(j) ==> exists|oi: Utf16Index, ii: Utf16Index|
            #[trigger] created_json(j@, oi, ii, input_code, output_code.spec_bytes(), source_filename, edits@),
{
    let in_len = input_code.as_bytes().len();
    let out_len = output_code.as_bytes().len();
    let in_starts = compute_line_starts(input_code);
    let out_starts = compute_line_starts(output_code);
    let in_idx = Utf16Index::new(input_code, in_starts.as_slice());
    let out_idx = Utf16Index::new(output_code, out_starts.as_slice());
    let (spans, expected) = compute_output_spans(in_len, edits);
    let map_len = if out_len < expected {
        out_len
    } else {
        expected
    };
    let out_to_in = build_output_to_input_map(in_len, map_len, edits, spans.as_slice());
    let mappings = create_mappings(
        &out_idx,
        &in_idx,
        out_starts.as_slice(),
        out_to_in.as_slice(),
        in_len,
        map_len,
        edits,
        spans.as_slice(),
        source_filename,
    );
    let ghost ms = mappings@;
    proof {
        assert(out_to_in@ =~= Seq::new(map_len as nat, |o: int| origin_of(in_len as int, edits@, o)));
        assert(spans@ =~= Seq::new(
            edits@.len(),
            |i: int| (out_start_of(edits@, i) as usize, out_end_of(edits@, i) as usize),
        ));
        assert(ms == created_mappings(out_idx, in_idx, in_len as int, map_len as int, source_filename, edits@));
    }
    let mut builder = crate::smap::new_builder();
    let id = crate::smap::builder_add_source(&mut builder, source_filename);
    crate::smap::builder_set_source_contents(&mut builder, id, input_code);
    proof {
        assert(crate::smap::builder_sources(builder) =~= seq![source_filename@]);
        assert(crate::smap::builder_contents(builder) =~= seq![Some(input_code@)]);
        assert(ms.subrange(0, 0).map_values(|m: Mapping| crate::smap::token_of(m)) =~= Seq::empty());
        assert(ms.subrange(0, 0).map_values(|m: Mapping| crate::smap::token_of(m).4) =~= Seq::empty());
        assert(ms.subrange(0, 0).map_values(|m: Mapping| crate::smap::token_of(m).5) =~= Seq::empty());
    }
    let mut k: usize = 0;
    while k < mappings.len()
        invariant
            ms == mappings@,
            0 <= k <= mappings@.len(),
            crate::smap::builder_tokens(builder) == ms.subrange(0, k as int).map_values(|m: Mapping| crate::smap::token_of(m)),
            crate::smap::builder_sources(builder) == crate::smap::registered(
                seq![source_filename@],
                ms.subrange(0, k as int).map_values(|m: Mapping| crate::smap::token_of(m).4),
            ),
            crate::smap::builder_names(builder) == crate::smap::registered(
                Seq::empty(),
                ms.subrange(0, k as int).map_values(|m: Mapping| crate::smap::token_of(m).5),
            ),
            crate::smap::builder_contents(builder) == seq![Some(input_code@)],
            crate::smap::builder_is_plain(builder),
        decreases mappings@.len() - k,
    {
        crate::smap::builder_add(&mut builder, &mappings[k]);
        proof {
            let m = ms[k as int];
            assert(mappings@[k as int] == m);
            assert(ms.subrange(0, k + 1).map_values(|m: Mapping| crate::smap::token_of(m)) =~= ms.subrange(0, k as int).map_values(|m: Mapping| crate::smap::token_of(m)).push(crate::smap::token_of(m)));
            assert(ms.subrange(0, k + 1).map_values(|m: Mapping| crate::smap::token_of(m).4) =~= ms.subrange(0, k as int).map_values(|m: Mapping| crate::smap::token_of(m).4).push(crate::smap::token_of(m).4));
            assert(ms.subrange(0, k + 1).map_values(|m: Mapping| crate::smap::token_of(m).5) =~= ms.subrange(0, k as int).map_values(|m: Mapping| crate::smap::token_of(m).5).push(crate::smap::token_of(m).5));
            lemma_registered_push(seq![source_filename@], ms.subrange(0, k as int).map_values(|m: Mapping| crate::smap::token_of(m).4), crate::smap::token_of(m).4);
            lemma_registered_push(Seq::empty(), ms.subrange(0, k as int).map_values(|m: Mapping| crate::smap::token_of(m).5), crate::smap::token_of(m).5);
        }
        k = k + 1;
    }
    proof {
        assert(ms.subrange(0, ms.len() as int) =~= ms);
    }
    let map = crate::smap::builder_finish(builder);
    match crate::smap::map_to_json(&map) {
        Ok(json) => {
            proof {
                let toks = crate::smap::map_tokens(map);
                assert(sorted_by_dst(toks));
                assert(json_of_mappings(json@, ms, seq![source_filename@], seq![Some(input_code@)]));
                assert(created_json(json@, out_idx, in_idx, input_code, output_code.spec_bytes(), source_filename, edits@));
            }
            let ghost jv = json@;
            let r: Result<String, StripError> = Ok(json);
            assert(r->Ok_0@ == jv);
            assert(created_json(r->Ok_0@, out_idx, in_idx, input_code, output_code.spec_bytes(), source_filename, edits@));
            r
        },
        Err(e) => Err(StripError::SourceMap(e)),
    }
}

/// An upstream token moved through the edits: its generated position `(t.0, t.1)` in the input
/// becomes an output position, or the token is dropped when that input byte did not survive.
pub open spec fn moved_token(
    out_idx: Utf16Index,
    in_idx: Utf16Index,
    in_to_out: Seq<Option<usize>>,
    t: crate::smap::TokenDesc,
) -> Option<crate::smap::TokenDesc> {
    let line = t.0 as int;
    if line >= in_idx.starts().len() {
        None
    } else {
        let b = crate::utf16::col_to_byte(
            in_idx.text(),
            in_idx.line_start(line),
            in_idx.line_end(line),
            t.1 as int,
        );
        if 0 <= b < in_to_out.len() && in_to_out[b] is Some {
            let (ol, oc) = out_idx.pos_of(in_to_out[b]->Some_0 as int);
            Some((ol as u32, oc as u32, t.2, t.3, t.4, t.5, false))
        } else {
            None
        }
    }
}

/// The first `n` upstream tokens moved through the edits, in order, the dropped ones left out.
pub open spec fn moved_tokens(
    out_idx: Utf16Index,
    in_idx: Utf16Index,
    in_to_out: Seq<Option<usize>>,
    toks: Seq<crate::smap::TokenDesc>,
    n: int,
) -> Seq<crate::smap::TokenDesc>
    decreases n,
{
    if n <= 0 {
        seq![]
    } else {
        let prev = moved_tokens(out_idx, in_idx, in_to_out, toks, n - 1);
        match moved_token(out_idx, in_idx, in_to_out, toks[n - 1]) {
            Some(t) => prev.push(t),
            None => prev,
        }
    }
}

/// Move every token of the upstream map through the edits (see [`moved_token`]).
pub fn token_mappings<'m>(
    input_map: &'m sourcemap::SourceMap,
    in_idx: &Utf16Index,
    out_idx: &Utf16Index,
    in_to_out: &[Option<usize>],
) -> (r: Vec<Mapping<'m>>)
    requires
        in_idx.wf(),
        out_idx.wf(),
    ensures
        r@.map_values(|m: Mapping| crate::smap::token_of(m)) == moved_tokens(
            *out_idx,
            *in_idx,
            in_to_out@,
            crate::smap::map_tokens(*input_map),
            crate::smap::map_tokens(*input_map).len() as int,
        ),
        forall|k: int| 0 <= k < r@.len() ==> src_from_map(*input_map, #[trigger] r@[k]),
{
    let ghost toks = crate::smap::map_tokens(*input_map);
    let mut r: Vec<Mapping<'m>> = Vec::new();
    let mut idx: usize = 0;
    loop
        invariant
            in_idx.wf(),
            out_idx.wf(),
            toks == crate::smap::map_tokens(*input_map),
            idx <= toks.len(),
            forall|k: int| 0 <= k < r@.len() ==> src_from_map(*input_map, #[trigger] r@[k]),
            r@.map_values(|m: Mapping| crate::smap::token_of(m)) == moved_tokens(
                *out_idx,
                *in_idx,
                in_to_out@,
                toks,
                idx as int,
            ),
        ensures
            r@.map_values(|m: Mapping| crate::smap::token_of(m)) == moved_tokens(
                *out_idx,
                *in_idx,
                in_to_out@,
                toks,
                toks.len() as int,
            ),
        decreases toks.len() - idx,
    {
        let (t, range) = match crate::smap::map_token(input_map, idx) {
            Some(t) => t,
            None => {
                break;
            },
        };
        let ghost before = r@;
        let ghost tk = toks[idx as int];
        let ghost f = |m: Mapping| crate::smap::token_of(m);
        assert(crate::smap::token_with_range(t, range) == tk);
        let in_line = t.dst_line as usize;
        let in_col = t.dst_col as usize;
        let mut pushed = false;
        if let Some(in_byte) = in_idx.line_utf16_col_to_byte(in_line, in_col) {
            if in_byte < in_to_out.len() {
                if let Some(out_byte) = in_to_out[in_byte] {
                    let (ol, oc) = out_idx.byte_to_line_utf16_col(out_byte);
                    let m = Mapping {
                        dst_line: ol as u32,
                        dst_col: oc as u32,
                        src_line: t.src_line,
                        src_col: t.src_col,
                        source: t.source,
                        name: t.name,
                    };
                    assert(moved_token(*out_idx, *in_idx, in_to_out@, tk) == Some(
                        crate::smap::token_of(m),
                    ));
                    assert(src_from_map(*input_map, m)) by {
                        assert(toks[idx as int] == tk);
                    }
                    r.push(m);
                    pushed = true;
                    assert(r@.map_values(f) =~= before.map_values(f).push(crate::smap::token_of(m)));
                }
            }
        }
        proof {
            if !pushed {
                assert(moved_token(*out_idx, *in_idx, in_to_out@, tk) is None);
                assert(r@ == before);
            }
        }
        idx = idx + 1;
    }
    r
}

/// The map holds no range token.
pub open spec fn no_range_tokens(m: sourcemap::SourceMap) -> bool {
    forall|i: int| 0 <= i < crate::smap::map_tokens(m).len() ==> !(#[trigger] crate::smap::map_tokens(m)[i]).6
}

/// The source fields of `r` are unmapped, or those of one of the tokens `toks`.
pub open spec fn src_from_tokens(toks: Seq<crate::smap::TokenDesc>, r: Mapping) -> bool {
    (r.src_line == u32::MAX && r.src_col == u32::MAX && r.source is None && r.name is None) || exists|i: int|
        0 <= i < toks.len() && {
            let t = #[trigger] toks[i];
            let u = crate::smap::token_of(r);
            t.2 == u.2 && t.3 == u.3 && t.4 == u.4 && t.5 == u.5
        }
}

/// The source fields of `r` are unmapped, or those of a token of `m`.
pub open spec fn src_from_map(m: sourcemap::SourceMap, r: Mapping) -> bool {
    src_from_tokens(crate::smap::map_tokens(m), r)
}

/// Whether the map holds a range token.
fn has_range_token(m: &sourcemap::SourceMap) -> (r: bool)
    ensures
        r == !no_range_tokens(*m),
{
    let ghost toks = crate::smap::map_tokens(*m);
    let mut idx: usize = 0;
    loop
        invariant
            toks == crate::smap::map_tokens(*m),
            idx <= toks.len(),
            forall|i: int| 0 <= i < idx ==> !(#[trigger] toks[i]).6,
        decreases toks.len() - idx,
    {
        match crate::smap::map_token(m, idx) {
            None => {
                return false;
            },
            Some((_, range)) => {
                if range {
                    return true;
                }
            },
        }
        idx = idx + 1;
    }
}

/// The source fields that a lookup of `(line, col)` in the sorted tokens `toks` resolves to:
/// those of the token [`crate::smap::lookup_index`] picks, or unmapped.
pub open spec fn looked_up_src(toks: Seq<crate::smap::TokenDesc>, line: u32, col: u32) -> (
    u32,
    u32,
    Option<Seq<char>>,
    Option<Seq<char>>,
) {
    match crate::smap::lookup_index(toks, line, col) {
        Some(i) => (toks[i].2, toks[i].3, toks[i].4, toks[i].5),
        None => (u32::MAX, u32::MAX, None, None),
    }
}

/// The anchor of a rewritten map at output byte `o`: the output position of `o`, and the
/// upstream token looked up at the input position of its origin (unmapped without origin).
pub open spec fn anchor_tok(
    oi: Utf16Index,
    ii: Utf16Index,
    out_to_in: Seq<Option<usize>>,
    toks: Seq<crate::smap::TokenDesc>,
    o: int,
) -> crate::smap::TokenDesc {
    let (ol, oc) = oi.pos_of(o);
    let x = if 0 <= o < out_to_in.len() {
        out_to_in[o]
    } else {
        None
    };
    if x is Some {
        let (il, ic) = ii.pos_of(x->Some_0 as int);
        let src = looked_up_src(toks, il as u32, ic as u32);
        (ol as u32, oc as u32, src.0, src.1, src.2, src.3, false)
    } else {
        (ol as u32, oc as u32, u32::MAX, u32::MAX, None, None, false)
    }
}

/// The boundary anchor of a rewritten map at output byte `oe`, right after a moved delimiter:
/// the upstream token looked up at the input position of the edit's end `end`.
pub open spec fn boundary_tok(
    oi: Utf16Index,
    ii: Utf16Index,
    toks: Seq<crate::smap::TokenDesc>,
    oe: int,
    end: int,
) -> crate::smap::TokenDesc {
    let (ol, oc) = oi.pos_of(oe);
    let (il, ic) = ii.pos_of(end);
    let src = looked_up_src(toks, il as u32, ic as u32);
    (ol as u32, oc as u32, src.0, src.1, src.2, src.3, false)
}

/// The anchors of a rewritten map around the moved delimiter of edit `i`: the segment start,
/// the delimiter's first byte, its last byte when longer than one byte, and the boundary after
/// it; each only when it lies below `map_len` (the boundary also only when the edit ends inside
/// the input).
pub open spec fn anchor_step(
    oi: Utf16Index,
    ii: Utf16Index,
    out_to_in: Seq<Option<usize>>,
    toks: Seq<crate::smap::TokenDesc>,
    edits: Seq<Edit>,
    spans: Seq<(usize, usize)>,
    map_len: int,
    in_len: int,
    i: int,
) -> Seq<crate::smap::TokenDesc> {
    let e = edits[i];
    let os = spans[i].0 as int;
    let oe = spans[i].1 as int;
    let d = e.moved_delim_len as int;
    if d > 0 {
        (if os < map_len {
            seq![anchor_tok(oi, ii, out_to_in, toks, os)]
        } else {
            seq![]
        }) + (if oe >= d && oe - d < map_len {
            seq![anchor_tok(oi, ii, out_to_in, toks, oe - d)] + (if d > 1 && oe - 1 < map_len {
                seq![anchor_tok(oi, ii, out_to_in, toks, oe - 1)]
            } else {
                seq![]
            })
        } else {
            seq![]
        }) + (if oe < map_len && (e.end as int) < in_len {
            seq![boundary_tok(oi, ii, toks, oe, e.end as int)]
        } else {
            seq![]
        })
    } else {
        seq![]
    }
}

/// The anchors of a rewritten map around the moved delimiters of the first `n` edits, in order
/// (see [`anchor_step`]).
pub open spec fn rewrite_anchor_tokens(
    oi: Utf16Index,
    ii: Utf16Index,
    out_to_in: Seq<Option<usize>>,
    toks: Seq<crate::smap::TokenDesc>,
    edits: Seq<Edit>,
    spans: Seq<(usize, usize)>,
    map_len: int,
    in_len: int,
    n: int,
) -> Seq<crate::smap::TokenDesc>
    decreases n,
{
    if n <= 0 {
        seq![]
    } else {
        rewrite_anchor_tokens(oi, ii, out_to_in, toks, edits, spans, map_len, in_len, n - 1)
            + anchor_step(oi, ii, out_to_in, toks, edits, spans, map_len, in_len, n - 1)
    }
}

/// The output length a map covers: the output's, or less when the edits account for less.
pub open spec fn covered_len(in_len: int, out_len: int, edits: Seq<Edit>) -> int {
    if out_len < expected_out_len(in_len, edits) {
        out_len
    } else {
        expected_out_len(in_len, edits)
    }
}

/// The origin table of the edits over the first `map_len` output bytes.
pub open spec fn origin_table(in_len: int, map_len: int, edits: Seq<Edit>) -> Seq<Option<usize>> {
    Seq::new(map_len as nat, |o: int| origin_of(in_len, edits, o))
}

/// The output spans of the edits.
pub open spec fn span_table(edits: Seq<Edit>) -> Seq<(usize, usize)> {
    Seq::new(edits.len(), |i: int| (out_start_of(edits, i) as usize, out_end_of(edits, i) as usize))
}

/// `ms` is what a rewritten map holds: the candidates `pre` (the surviving upstream tokens in
/// order, then the anchors) sorted by destination, with one kept per destination by [`pick`]: the
/// first mapped candidate, else the first.
pub open spec fn rewritten_from(
    ms: Seq<Mapping>,
    pre: Seq<Mapping>,
    oi: Utf16Index,
    ii: Utf16Index,
    out_to_in: Seq<Option<usize>>,
    in_to_out: Seq<Option<usize>>,
    toks: Seq<crate::smap::TokenDesc>,
    edits: Seq<Edit>,
    spans: Seq<(usize, usize)>,
    map_len: int,
    in_len: int,
) -> bool {
    &&& pre.map_values(|m: Mapping| crate::smap::token_of(m)) == moved_tokens(
        oi,
        ii,
        in_to_out,
        toks,
        toks.len() as int,
    ) + rewrite_anchor_tokens(oi, ii, out_to_in, toks, edits, spans, map_len, in_len, edits.len() as int)
    &&& dedup_state(ms, pre, pre.len() as int)
}

fn boundary_rewrite<'m>(
    input_map: &'m sourcemap::SourceMap,
    in_idx: &Utf16Index,
    out_idx: &Utf16Index,
    oe: usize,
    end: usize,
) -> (r: Mapping<'m>)
    requires
        in_idx.wf(),
        out_idx.wf(),
        no_range_tokens(*input_map),
        crate::smap::tokens_sorted(crate::smap::map_tokens(*input_map)),
    ensures
        crate::smap::token_of(r) == boundary_tok(
            *out_idx,
            *in_idx,
            crate::smap::map_tokens(*input_map),
            oe as int,
            end as int,
        ),
{
    let (ol, oc) = out_idx.byte_to_line_utf16_col(oe);
    let (il, ic) = in_idx.byte_to_line_utf16_col(end);
    match crate::smap::map_lookup(input_map, il as u32, ic as u32) {
        Some(t) => Mapping {
            dst_line: ol as u32,
            dst_col: oc as u32,
            src_line: t.src_line,
            src_col: t.src_col,
            source: t.source,
            name: t.name,
        },
        None => Mapping {
            dst_line: ol as u32,
            dst_col: oc as u32,
            src_line: u32::MAX,
            src_col: u32::MAX,
            source: None,
            name: None,
        },
    }
}

/// The mapping anchored at output byte `o` in a rewritten map: its output position, and the
/// upstream token found at the input position of its origin (unmapped when it has no origin or
/// no token is found).
fn anchor_rewrite<'m>(
    input_map: &'m sourcemap::SourceMap,
    in_idx: &Utf16Index,
    out_idx: &Utf16Index,
    out_to_in: &[Option<usize>],
    o: usize,
) -> (r: Mapping<'m>)
    requires
        in_idx.wf(),
        out_idx.wf(),
        no_range_tokens(*input_map),
        crate::smap::tokens_sorted(crate::smap::map_tokens(*input_map)),
    ensures
        crate::smap::token_of(r) == anchor_tok(
            *out_idx,
            *in_idx,
            out_to_in@,
            crate::smap::map_tokens(*input_map),
            o as int,
        ),
{
    let (ol, oc) = out_idx.byte_to_line_utf16_col(o);
    let x = if o < out_to_in.len() {
        out_to_in[o]
    } else {
        None
    };
    match x {
        None => Mapping {
            dst_line: ol as u32,
            dst_col: oc as u32,
            src_line: u32::MAX,
            src_col: u32::MAX,
            source: None,
            name: None,
        },
        Some(in_byte) => {
            let (il, ic) = in_idx.byte_to_line_utf16_col(in_byte);
            match crate::smap::map_lookup(input_map, il as u32, ic as u32) {
                Some(t) => Mapping {
                    dst_line: ol as u32,
                    dst_col: oc as u32,
                    src_line: t.src_line,
                    src_col: t.src_col,
                    source: t.source,
                    name: t.name,
                },
                None => Mapping {
                    dst_line: ol as u32,
                    dst_col: oc as u32,
                    src_line: u32::MAX,
                    src_col: u32::MAX,
                    source: None,
                    name: None,
                },
            }
        },
    }
}

/// Append the anchors around the moved delimiter of edit `i` (see [`anchor_step`]).
fn push_edit_anchors<'m>(
    mappings: &mut Vec<Mapping<'m>>,
    input_map: &'m sourcemap::SourceMap,
    in_idx: &Utf16Index,
    out_idx: &Utf16Index,
    out_to_in: &[Option<usize>],
    in_len: usize,
    map_out_len: usize,
    edits: &[Edit],
    spans: &[(usize, usize)],
    i: usize,
)
    requires
        no_range_tokens(*input_map),
        crate::smap::tokens_sorted(crate::smap::map_tokens(*input_map)),
        in_idx.wf(),
        out_idx.wf(),
        spans@.len() == edits@.len(),
        i < edits@.len(),
    ensures
        final(mappings)@.map_values(|m: Mapping| crate::smap::token_of(m)) == old(mappings)@.map_values(
            |m: Mapping| crate::smap::token_of(m),
        ) + anchor_step(
            *out_idx,
            *in_idx,
            out_to_in@,
            crate::smap::map_tokens(*input_map),
            edits@,
            spans@,
            map_out_len as int,
            in_len as int,
            i as int,
        ),
{
    let ghost toks = crate::smap::map_tokens(*input_map);
    let ghost start = mappings@.map_values(|m: Mapping| crate::smap::token_of(m));
    let ghost mut pts = Seq::<crate::smap::TokenDesc>::empty();
    let e = &edits[i];
    let (os, oe) = spans[i];
    let d = e.moved_delim_len;
    if d > 0 {
        let ghost mut a = Seq::<crate::smap::TokenDesc>::empty();
        let ghost mut b = Seq::<crate::smap::TokenDesc>::empty();
        let ghost mut c = Seq::<crate::smap::TokenDesc>::empty();
        if os < map_out_len {
            let m = anchor_rewrite(input_map, in_idx, out_idx, out_to_in, os);
            proof { a = seq![crate::smap::token_of(m)]; }
            mappings.push(m);
        }
        if oe >= d && oe - d < map_out_len {
            let m = anchor_rewrite(input_map, in_idx, out_idx, out_to_in, oe - d);
            proof { b = seq![crate::smap::token_of(m)]; }
            mappings.push(m);
            if d > 1 && oe - 1 < map_out_len {
                let m = anchor_rewrite(input_map, in_idx, out_idx, out_to_in, oe - 1);
                proof { b = b.push(crate::smap::token_of(m)); }
                mappings.push(m);
            }
        }
        if oe < map_out_len && e.end < in_len {
            let m = boundary_rewrite(input_map, in_idx, out_idx, oe, e.end);
            proof { c = seq![crate::smap::token_of(m)]; }
            mappings.push(m);
        }
        proof {
            pts = a + b + c;
            assert(pts =~= anchor_step(
                *out_idx,
                *in_idx,
                out_to_in@,
                toks,
                edits@,
                spans@,
                map_out_len as int,
                in_len as int,
                i as int,
            ));
        }
    }
    proof {
        assert(mappings@.map_values(|m: Mapping| crate::smap::token_of(m)) =~= start + pts);
    }
}

/// The mappings of a rewritten map: the upstream tokens moved through the edits
/// ([`token_mappings`]), then the anchors around every moved delimiter
/// ([`rewrite_anchor_tokens`]), sorted by destination with one kept per destination
/// ([`rewritten_from`]).
pub fn rewrite_mappings<'m>(
    input_map: &'m sourcemap::SourceMap,
    in_idx: &Utf16Index,
    out_idx: &Utf16Index,
    out_to_in: &[Option<usize>],
    in_to_out: &[Option<usize>],
    in_len: usize,
    map_out_len: usize,
    edits: &[Edit],
    spans: &[(usize, usize)],
) -> (r: Vec<Mapping<'m>>)
    requires
        no_range_tokens(*input_map),
        crate::smap::tokens_sorted(crate::smap::map_tokens(*input_map)),
        in_idx.wf(),
        out_idx.wf(),
        spans@.len() == edits@.len(),
    ensures
        exists|pre: Seq<Mapping>|
            #[trigger] rewritten_from(
                r@,
                pre,
                *out_idx,
                *in_idx,
                out_to_in@,
                in_to_out@,
                crate::smap::map_tokens(*input_map),
                edits@,
                spans@,
                map_out_len as int,
                in_len as int,
            ),
{
    let ghost toks = crate::smap::map_tokens(*input_map);
    let mut mappings = token_mappings(input_map, in_idx, out_idx, in_to_out);
    let ghost moved = moved_tokens(*out_idx, *in_idx, in_to_out@, toks, toks.len() as int);
    assert(moved + rewrite_anchor_tokens(*out_idx, *in_idx, out_to_in@, toks, edits@, spans@, map_out_len as int, in_len as int, 0) =~= moved);
    let n = edits.len();
    let mut i: usize = 0;
    while i < n
        invariant
            in_idx.wf(),
            out_idx.wf(),
            no_range_tokens(*input_map),
            toks == crate::smap::map_tokens(*input_map),
            crate::smap::tokens_sorted(toks),
            n == edits@.len(),
            spans@.len() == n,
            0 <= i <= n,
            mappings@.map_values(|m: Mapping| crate::smap::token_of(m)) == moved + rewrite_anchor_tokens(
                *out_idx,
                *in_idx,
                out_to_in@,
                toks,
                edits@,
                spans@,
                map_out_len as int,
                in_len as int,
                i as int,
            ),
        decreases n - i,
    {
        let ghost at_start = mappings@.map_values(|m: Mapping| crate::smap::token_of(m));
        push_edit_anchors(
            &mut mappings,
            input_map,
            in_idx,
            out_idx,
            out_to_in,
            in_len,
            map_out_len,
            edits,
            spans,
            i,
        );
        i = i + 1;
        proof {
            assert(at_start + anchor_step(
                *out_idx,
                *in_idx,
                out_to_in@,
                toks,
                edits@,
                spans@,
                map_out_len as int,
                in_len as int,
                i - 1,
            ) =~= moved + rewrite_anchor_tokens(
                *out_idx,
                *in_idx,
                out_to_in@,
                toks,
                edits@,
                spans@,
                map_out_len as int,
                in_len as int,
                i as int,
            ));
        }
    }
    let ghost before = mappings@;
    sort_and_dedup_mappings(&mut mappings);
    proof {
        assert(dedup_state(mappings@, before, before.len() as int));
        assert(rewritten_from(
            mappings@,
            before,
            *out_idx,
            *in_idx,
            out_to_in@,
            in_to_out@,
            toks,
            edits@,
            spans@,
            map_out_len as int,
            in_len as int,
        ));
    }
    mappings
}

/// `t` is an input-to-output table of the edits over the first `out_len` output bytes: each
/// entry points at an output byte that comes from it, and every input byte that some output
/// byte comes from has an entry.
pub open spec fn in_to_out_table(t: Seq<Option<usize>>, in_len: int, out_len: int, edits: Seq<Edit>) -> bool {
    &&& t.len() == in_len
    &&& forall|b: int|
        0 <= b < in_len && (#[trigger] t[b]) is Some ==> t[b]->Some_0 < out_len && origin_of(
            in_len,
            edits,
            t[b]->Some_0 as int,
        ) == Some(b as usize)
    &&& forall|o: int|
        0 <= o < out_len && (#[trigger] origin_of(in_len, edits, o)) is Some ==> origin_of(
            in_len,
            edits,
            o,
        )->Some_0 < in_len && t[origin_of(in_len, edits, o)->Some_0 as int] is Some
}

/// `j` is the JSON of the rewritten map: the upstream map parses and holds no range token, and
/// `j` is the map of the mappings `ms` of [`rewritten_from`], over the indexes of the two texts,
/// the origins of the edits and an input-to-output table of them.
pub open spec fn rewritten_json(
    j: Seq<char>,
    ms: Seq<Mapping>,
    input: &str,
    output: &str,
    json: &str,
    edits: Seq<Edit>,
) -> bool {
    let inb = input.spec_bytes();
    let outb = output.spec_bytes();
    let map_len = covered_len(inb.len() as int, outb.len() as int, edits);
    let toks = crate::smap::parsed_map(json@)->Some_0;
    let out_to_in = origin_table(inb.len() as int, map_len, edits);
    let spans = span_table(edits);
    &&& crate::smap::parsed_map(json@) is Some
    &&& forall|i: int| 0 <= i < toks.len() ==> !(#[trigger] toks[i]).6
    &&& json_of_mappings(j, ms, Seq::empty(), Seq::empty())
    &&& exists|oi: Utf16Index, ii: Utf16Index, t: Seq<Option<usize>>, pre: Seq<Mapping>|
        indexes(oi, outb) && indexes(ii, inb) && in_to_out_table(t, inb.len() as int, map_len, edits)
            && #[trigger] rewritten_from(
            ms,
            pre,
            oi,
            ii,
            out_to_in,
            t,
            toks,
            edits,
            spans,
            map_len,
            inb.len() as int,
        )
}

/// Rewrite an upstream source map of `input_code` so that it maps `output_code`.
///
/// The mappings are those of [`rewrite_mappings`]. Fails with `SourceMap` when the upstream map
/// does not parse, or when it holds a range token: looking up such a map can underflow a column
/// inside the `sourcemap` crate. Succeeds otherwise.
pub fn rewrite_sourcemap(
    input_code: &str,
    output_code: &str,
    input_sourcemap_json: &str,
    edits: &[Edit],
) -> (r: Result<String, StripError>)
    requires
        valid_edits(input_code.spec_bytes().len() as int, edits@),
        edits_fit(input_code.spec_bytes().len() as int, edits@),
    ensures
        r is Err ==> r matches Err(StripError::SourceMap(_)),
        crate::smap::parsed_map(input_sourcemap_json@) is None ==> r is Err,
        crate::smap::parsed_map(input_sourcemap_json@) matches Some(toks) ==> ((exists|i: int|
            0 <= i < toks.len() && (#[trigger] toks[i]).6) ==> r is Err),
        crate::smap::parsed_map(input_sourcemap_json@) matches Some(toks) ==> ((forall|i: int|
            0 <= i < toks.len() ==> !(#[trigger] toks[i]).6) ==> r is Ok),
        r matches Ok(j) ==> exists|ms: Seq<Mapping>|
            #[trigger] rewritten_json(j@, ms, input_code, output_code, input_sourcemap_json, edits@),
{
    let input_map = match crate::smap::map_from_json(input_sourcemap_json) {
        Ok(m) => m,
        Err(e) => {
            return Err(StripError::SourceMap(e));
        },
    };
    if has_range_token(&input_map) {
        return Err(StripError::SourceMap(crate::smap::incompatible_map_error()));
    }
    let in_len = input_code.as_bytes().len();
    let out_len = output_code.as_bytes().len();
    let in_starts = compute_line_starts(input_code);
    let out_starts = compute_line_starts(output_code);
    let in_idx = Utf16Index::new(input_code, in_starts.as_slice());
    let out_idx = Utf16Index::new(output_code, out_starts.as_slice());
    let (spans, expected) = compute_output_spans(in_len, edits);
    let map_out_len = if out_len < expected {
        out_len
    } else {
        expected
    };
    let out_to_in = build_output_to_input_map(in_len, map_out_len, edits, spans.as_slice());
    let in_to_out = build_input_to_output_map(in_len, map_out_len, edits, spans.as_slice());
    let mappings = rewrite_mappings(
        &input_map,
        &in_idx,
        &out_idx,
        out_to_in.as_slice(),
        in_to_out.as_slice(),
        in_len,
        map_out_len,
        edits,
        spans.as_slice(),
    );
    let ghost ms = mappings@;
    proof {
        assert(in_to_out_table(in_to_out@, in_len as int, map_out_len as int, edits@));
        assert(out_to_in@ =~= origin_table(in_len as int, map_out_len as int, edits@));
        assert(spans@ =~= span_table(edits@));
    }
    let mut builder = crate::smap::new_builder();
    proof {
        assert(ms.subrange(0, 0).map_values(|m: Mapping| crate::smap::token_of(m)) =~= Seq::empty());
        assert(ms.subrange(0, 0).map_values(|m: Mapping| crate::smap::token_of(m).4) =~= Seq::empty());
        assert(ms.subrange(0, 0).map_values(|m: Mapping| crate::smap::token_of(m).5) =~= Seq::empty());
    }
    let mut k: usize = 0;
    while k < mappings.len()
        invariant
            ms == mappings@,
            0 <= k <= mappings@.len(),
            crate::smap::builder_tokens(builder) == ms.subrange(0, k as int).map_values(
                |m: Mapping| crate::smap::token_of(m),
            ),
            crate::smap::builder_sources(builder) == crate::smap::registered(
                Seq::empty(),
                ms.subrange(0, k as int).map_values(|m: Mapping| crate::smap::token_of(m).4),
            ),
            crate::smap::builder_names(builder) == crate::smap::registered(
                Seq::empty(),
                ms.subrange(0, k as int).map_values(|m: Mapping| crate::smap::token_of(m).5),
            ),
            crate::smap::builder_contents(builder) == Seq::<Option<Seq<char>>>::empty(),
            crate::smap::builder_is_plain(builder),
        decreases mappings@.len() - k,
    {
        crate::smap::builder_add(&mut builder, &mappings[k]);
        proof {
            let m = ms[k as int];
            assert(mappings@[k as int] == m);
            assert(ms.subrange(0, k + 1).map_values(|m: Mapping| crate::smap::token_of(m)) =~= ms.subrange(
                0,
                k as int,
            ).map_values(|m: Mapping| crate::smap::token_of(m)).push(crate::smap::token_of(m)));
            assert(ms.subrange(0, k + 1).map_values(|m: Mapping| crate::smap::token_of(m).4) =~= ms.subrange(
                0,
                k as int,
            ).map_values(|m: Mapping| crate::smap::token_of(m).4).push(crate::smap::token_of(m).4));
            assert(ms.subrange(0, k + 1).map_values(|m: Mapping| crate::smap::token_of(m).5) =~= ms.subrange(
                0,
                k as int,
            ).map_values(|m: Mapping| crate::smap::token_of(m).5).push(crate::smap::token_of(m).5));
            lemma_registered_push(
                Seq::empty(),
                ms.subrange(0, k as int).map_values(|m: Mapping| crate::smap::token_of(m).4),
                crate::smap::token_of(m).4,
            );
            lemma_registered_push(
                Seq::empty(),
                ms.subrange(0, k as int).map_values(|m: Mapping| crate::smap::token_of(m).5),
                crate::smap::token_of(m).5,
            );
        }
        k = k + 1;
    }
    proof {
        assert(ms.subrange(0, ms.len() as int) =~= ms);
    }
    let map = crate::smap::builder_finish(builder);
    match crate::smap::map_to_json(&map) {
        Ok(json) => {
            proof {
                let toks = crate::smap::map_tokens(map);
                assert(sorted_by_dst(toks));
                assert(json_of_mappings(json@, ms, Seq::empty(), Seq::empty()));
            }
            let ghost jv = json@;
            let r: Result<String, StripError> = Ok(json);
            assert(r->Ok_0@ == jv);
            proof {
                let pre = choose|pre: Seq<Mapping>|
                    #[trigger] rewritten_from(
                        ms,
                        pre,
                        out_idx,
                        in_idx,
                        out_to_in@,
                        in_to_out@,
                        crate::smap::map_tokens(input_map),
                        edits@,
                        spans@,
                        map_out_len as int,
                        in_len as int,
                    );
                let inb = input_code.spec_bytes();
                let outb = output_code.spec_bytes();
                let map_len = covered_len(inb.len() as int, outb.len() as int, edits@);
                assert(map_len == map_out_len);
                assert(rewritten_from(
                    ms,
                    pre,
                    out_idx,
                    in_idx,
                    origin_table(inb.len() as int, map_len, edits@),
                    in_to_out@,
                    crate::smap::parsed_map(input_sourcemap_json@)->Some_0,
                    edits@,
                    span_table(edits@),
                    map_len,
                    inb.len() as int,
                ));
            }
            assert(rewritten_json(r->Ok_0@, ms, input_code, output_code, input_sourcemap_json, edits@));
            r
        },
        Err(e) => Err(StripError::SourceMap(e)),
    }
}

} // verus!
