//! UTF-16 column indexing.
//!
//! Converts between absolute byte offsets into a UTF-8 string and `(line, column)` positions
//! whose column is measured in UTF-16 code units, the convention of JavaScript source-map
//! consumers. Each line keeps sparse checkpoints so that a lookup does not rescan the line from
//! its start. Offsets inside a multi-byte UTF-8 sequence, and columns inside a surrogate pair,
//! clamp to the start of the containing scalar value.
use vstd::prelude::*;
use vstd::string::{StrSliceExecFns, StringSliceAdditionalSpecFns};

verus! {

/// Number of bytes of the UTF-8 sequence that starts with the lead byte `b`.
pub open spec fn utf8_width(b: u8) -> int {
    if b < 0x80 {
        1
    } else if b < 0xE0 {
        2
    } else if b < 0xF0 {
        3
    } else {
        4
    }
}

/// Number of UTF-16 code units of the scalar whose UTF-8 sequence starts with `b`.
pub open spec fn utf16_units(b: u8) -> int {
    if b >= 0xF0 {
        2
    } else {
        1
    }
}

/// The naive scan: UTF-16 column reached by walking whole scalars from `cur` while they end at
/// or before `target`. A scalar that would cross `target` is not counted.
pub open spec fn col_scan(bytes: Seq<u8>, cur: int, target: int) -> int
    decreases target - cur,
{
    if cur >= target || cur < 0 || cur >= bytes.len() {
        0
    } else if cur + utf8_width(bytes[cur]) <= target {
        utf16_units(bytes[cur]) + col_scan(bytes, cur + utf8_width(bytes[cur]), target)
    } else {
        0
    }
}

/// The naive scan back: the byte reached by walking whole scalars from `cur` (not past `end`)
/// while their UTF-16 units fit in `rem`. A scalar that would overshoot `rem` stops the walk at
/// its start.
pub open spec fn byte_scan(bytes: Seq<u8>, cur: int, end: int, rem: int) -> int
    decreases end - cur,
{
    if rem <= 0 || cur >= end || cur < 0 || cur >= bytes.len() {
        cur
    } else if utf16_units(bytes[cur]) > rem || cur + utf8_width(bytes[cur]) > end {
        cur
    } else {
        byte_scan(bytes, cur + utf8_width(bytes[cur]), end, rem - utf16_units(bytes[cur]))
    }
}

/// `p` is reached from `cur` by stepping over whole scalars.
pub open spec fn on_grid(bytes: Seq<u8>, cur: int, p: int) -> bool
    decreases p - cur,
{
    if cur == p {
        true
    } else if cur < p && 0 <= cur < bytes.len() {
        cur + utf8_width(bytes[cur]) <= p && on_grid(bytes, cur + utf8_width(bytes[cur]), p)
    } else {
        false
    }
}

/// UTF-16 column of byte `b` within the line `[start, end)`.
pub open spec fn byte_to_col(bytes: Seq<u8>, start: int, end: int, b: int) -> int {
    if b <= start {
        0
    } else {
        col_scan(bytes, start, if b < end { b } else { end })
    }
}

/// Byte of UTF-16 column `col` within the line `[start, end)`.
pub open spec fn col_to_byte(bytes: Seq<u8>, start: int, end: int, col: int) -> int {
    if col == 0 {
        start
    } else if col >= col_scan(bytes, start, end) {
        end
    } else {
        byte_scan(bytes, start, end, col)
    }
}

/// Line starts that an index can be built on: first 0, strictly increasing, within the text.
pub open spec fn valid_line_starts(bytes: Seq<u8>, starts: Seq<usize>) -> bool {
    &&& starts.len() >= 1
    &&& starts[0] == 0
    &&& forall|i: int, j: int| 0 <= i < j < starts.len() ==> starts[i] < starts[j]
    &&& forall|i: int| 0 <= i < starts.len() ==> starts[i] <= bytes.len()
}

/// End of line `i`: before the next line's `\n`, and before a `\r` that precedes that `\n`.
/// The last line ends with the text, a final `\r` included.
pub open spec fn line_end_of(bytes: Seq<u8>, starts: Seq<usize>, i: int) -> int {
    let start = starts[i] as int;
    let end0 = if i + 1 < starts.len() {
        starts[i + 1] - 1
    } else {
        bytes.len() as int
    };
    if i + 1 < starts.len() && end0 > start && bytes[end0 - 1] == 13u8 {
        end0 - 1
    } else {
        end0
    }
}

/// The last line whose start is at or before `b`.
pub open spec fn is_line_of(starts: Seq<usize>, b: int, line: int) -> bool {
    &&& 0 <= line < starts.len()
    &&& starts[line] <= b
    &&& line + 1 < starts.len() ==> b < starts[line + 1]
}

proof fn lemma_col_scan_bound(bytes: Seq<u8>, cur: int, target: int)
    ensures
        0 <= col_scan(bytes, cur, target),
        cur <= target ==> col_scan(bytes, cur, target) <= target - cur,
    decreases target - cur,
{
    if cur >= target || cur < 0 || cur >= bytes.len() {
    } else if cur + utf8_width(bytes[cur]) <= target {
        lemma_col_scan_bound(bytes, cur + utf8_width(bytes[cur]), target);
    }
}

proof fn lemma_col_split(bytes: Seq<u8>, s: int, p: int, t: int)
    requires
        on_grid(bytes, s, p),
        p <= t,
    ensures
        col_scan(bytes, s, t) == col_scan(bytes, s, p) + col_scan(bytes, p, t),
    decreases p - s,
{
    if s != p {
        lemma_col_split(bytes, s + utf8_width(bytes[s]), p, t);
    }
}

proof fn lemma_grid_step(bytes: Seq<u8>, s: int, p: int)
    requires
        on_grid(bytes, s, p),
        0 <= p < bytes.len(),
    ensures
        on_grid(bytes, s, p + utf8_width(bytes[p])),
    decreases p - s,
{
    if s != p {
        lemma_grid_step(bytes, s + utf8_width(bytes[s]), p);
    } else {
        let q = p + utf8_width(bytes[p]);
        assert(on_grid(bytes, q, q));
    }
}

proof fn lemma_byte_split(bytes: Seq<u8>, s: int, p: int, end: int, rem: int)
    requires
        on_grid(bytes, s, p),
        p <= end,
        col_scan(bytes, s, p) <= rem,
    ensures
        byte_scan(bytes, s, end, rem) == byte_scan(bytes, p, end, rem - col_scan(bytes, s, p)),
    decreases p - s,
{
    if s != p {
        let w = utf8_width(bytes[s]);
        lemma_col_scan_bound(bytes, s + w, p);
        lemma_byte_split(bytes, s + w, p, end, rem - utf16_units(bytes[s]));
    }
}

/// Width of the UTF-8 sequence led by `lead`.
fn scalar_width(lead: u8) -> (w: usize)
    ensures
        w == utf8_width(lead),
{
    if lead < 0x80 {
        1
    } else if lead < 0xE0 {
        2
    } else if lead < 0xF0 {
        3
    } else {
        4
    }
}

/// UTF-16 units of the scalar led by `lead`.
fn scalar_units(lead: u8) -> (u: usize)
    ensures
        u == utf16_units(lead),
{
    if lead >= 0xF0 {
        2
    } else {
        1
    }
}

/// A checkpoint inside a line: an absolute byte offset and the UTF-16 column there.
#[derive(Debug, Clone, Copy, PartialEq, Eq)]
struct Utf16Checkpoint {
    byte: usize,
    utf16_col: usize,
}

/// Per-line index over the line slice `[start, end)`, which excludes the line terminator.
#[derive(Debug, Clone)]
struct Utf16LineIndex {
    start: usize,
    end: usize,
    checkpoints: Vec<Utf16Checkpoint>,
}

/// Number of scalar values between two checkpoints.
const CHECKPOINT_STRIDE_CHARS: usize = 64;

impl Utf16LineIndex {
    spec fn wf(&self, bytes: Seq<u8>) -> bool {
        let cps = self.checkpoints@;
        &&& self.start <= self.end <= bytes.len()
        &&& cps.len() >= 1
        &&& cps[0] == (Utf16Checkpoint { byte: self.start, utf16_col: 0 })
        &&& cps.last().byte == self.end
        &&& forall|k: int|
            #![trigger cps[k]]
            0 <= k < cps.len() ==> {
                &&& self.start <= cps[k].byte <= self.end
                &&& cps[k].utf16_col == col_scan(bytes, self.start as int, cps[k].byte as int)
                &&& (on_grid(bytes, self.start as int, cps[k].byte as int) || cps[k].byte
                    == self.end)
            }
    }

    /// Build the index of the line `bytes[start..end]`.
    fn new(bytes: &[u8], start: usize, end: usize) -> (r: Self)
        requires
            start <= end <= bytes@.len(),
        ensures
            r.wf(bytes@),
            r.start == start,
            r.end == end,
    {
        let ghost b = bytes@;
        let mut checkpoints: Vec<Utf16Checkpoint> = Vec::new();
        checkpoints.push(Utf16Checkpoint { byte: start, utf16_col: 0 });
        let mut cur: usize = start;
        let mut col: usize = 0;
        let mut char_count: usize = 0;
        proof {
            assert(on_grid(b, start as int, start as int));
        }
        while cur < end && scalar_width(bytes[cur]) <= end - cur
            invariant
                start <= cur <= end <= b.len(),
                b == bytes@,
                on_grid(b, start as int, cur as int),
                col == col_scan(b, start as int, cur as int),
                col <= cur - start,
                char_count < CHECKPOINT_STRIDE_CHARS,
                checkpoints@.len() >= 1,
                checkpoints@[0] == (Utf16Checkpoint { byte: start, utf16_col: 0 }),
                checkpoints@.last().byte <= cur,
                forall|k: int|
                    #![trigger checkpoints@[k]]
                    0 <= k < checkpoints@.len() ==> {
                        &&& start <= checkpoints@[k].byte <= cur
                        &&& checkpoints@[k].utf16_col == col_scan(
                            b,
                            start as int,
                            checkpoints@[k].byte as int,
                        )
                        &&& on_grid(b, start as int, checkpoints@[k].byte as int)
                    },
            decreases end - cur,
        {
            let w = scalar_width(bytes[cur]);
            let u = scalar_units(bytes[cur]);
            proof {
                lemma_col_split(b, start as int, cur as int, cur + w);
                assert(col_scan(b, cur + w, cur + w) == 0);
                lemma_grid_step(b, start as int, cur as int);
            }
            col = col + u;
            cur = cur + w;
            char_count = if char_count == CHECKPOINT_STRIDE_CHARS - 1 {
                0
            } else {
                char_count + 1
            };
            if char_count == 0 {
                checkpoints.push(Utf16Checkpoint { byte: cur, utf16_col: col });
            }
        }
        proof {
            lemma_col_split(b, start as int, cur as int, end as int);
            if cur < end {
                assert(col_scan(b, cur as int, end as int) == 0);
            }
        }
        if checkpoints[checkpoints.len() - 1].byte != end {
            checkpoints.push(Utf16Checkpoint { byte: end, utf16_col: col });
        }
        Utf16LineIndex { start, end, checkpoints }
    }

    /// UTF-16 length of the line.
    fn utf16_len(&self, Ghost(bytes): Ghost<Seq<u8>>) -> (r: usize)
        requires
            self.wf(bytes),
        ensures
            r == col_scan(bytes, self.start as int, self.end as int),
    {
        self.checkpoints[self.checkpoints.len() - 1].utf16_col
    }

    /// UTF-16 column of the absolute byte `abs_byte`; inside a UTF-8 sequence, the column of its
    /// start.
    fn byte_to_utf16_col(&self, bytes: &[u8], abs_byte: usize) -> (r: usize)
        requires
            self.wf(bytes@),
        ensures
            r == byte_to_col(bytes@, self.start as int, self.end as int, abs_byte as int),
    {
        if abs_byte <= self.start {
            return 0;
        }
        let clamped = if abs_byte < self.end {
            abs_byte
        } else {
            self.end
        };
        let ghost b = bytes@;
        let cps = &self.checkpoints;
        // Last checkpoint at or before `clamped`.
        let mut lo: usize = 0;
        let mut hi: usize = cps.len();
        while hi - lo > 1
            invariant
                self.wf(b),
                cps == &self.checkpoints,
                0 <= lo < hi <= cps@.len(),
                cps@[lo as int].byte <= clamped,
            decreases hi - lo,
        {
            let mid = lo + (hi - lo) / 2;
            if cps[mid].byte <= clamped {
                lo = mid;
            } else {
                hi = mid;
            }
        }
        let cp = cps[lo];
        let mut cur = cp.byte;
        let mut col = cp.utf16_col;
        if cur == self.end {
            return col;
        }
        assert(on_grid(b, self.start as int, cur as int));
        proof {
            lemma_col_scan_bound(b, self.start as int, cur as int);
        }
        while cur < clamped && scalar_width(bytes[cur]) <= clamped - cur
            invariant
                self.wf(b),
                self.start <= cur <= clamped <= self.end <= b.len(),
                b == bytes@,
                on_grid(b, self.start as int, cur as int),
                col == col_scan(b, self.start as int, cur as int),
                col <= cur - self.start,
            decreases clamped - cur,
        {
            let w = scalar_width(bytes[cur]);
            let u = scalar_units(bytes[cur]);
            proof {
                lemma_col_split(b, self.start as int, cur as int, cur + w);
                assert(col_scan(b, cur + w, cur + w) == 0);
                lemma_grid_step(b, self.start as int, cur as int);
            }
            col = col + u;
            cur = cur + w;
        }
        proof {
            lemma_col_split(b, self.start as int, cur as int, clamped as int);
            if cur < clamped {
                assert(col_scan(b, cur as int, clamped as int) == 0);
            }
        }
        col
    }

    /// Absolute byte of the UTF-16 column `utf16_col`; past the end, the line end; inside a
    /// surrogate pair, the start of that scalar.
    fn utf16_col_to_byte(&self, bytes: &[u8], utf16_col: usize) -> (r: usize)
        requires
            self.wf(bytes@),
        ensures
            r == col_to_byte(bytes@, self.start as int, self.end as int, utf16_col as int),
    {
        let ghost b = bytes@;
        if utf16_col == 0 {
            return self.start;
        }
        if utf16_col >= self.utf16_len(Ghost(b)) {
            return self.end;
        }
        let cps = &self.checkpoints;
        // Last checkpoint whose column is at or before `utf16_col`.
        let mut lo: usize = 0;
        let mut hi: usize = cps.len();
        while hi - lo > 1
            invariant
                self.wf(b),
                cps == &self.checkpoints,
                0 <= lo < hi <= cps@.len(),
                cps@[lo as int].utf16_col <= utf16_col,
            decreases hi - lo,
        {
            let mid = lo + (hi - lo) / 2;
            if cps[mid].utf16_col <= utf16_col {
                lo = mid;
            } else {
                hi = mid;
            }
        }
        let cp = cps[lo];
        let mut cur = cp.byte;
        let mut col = cp.utf16_col;
        assert(cur != self.end) by {
            if cur == self.end {
                assert(col == col_scan(b, self.start as int, self.end as int));
            }
        }
        assert(on_grid(b, self.start as int, cur as int));
        proof {
            lemma_byte_split(b, self.start as int, cur as int, self.end as int, utf16_col as int);
        }
        while col < utf16_col && cur < self.end && scalar_units(bytes[cur]) <= utf16_col - col
            && scalar_width(bytes[cur]) <= self.end - cur
            invariant
                self.wf(b),
                self.start <= cur <= self.end <= b.len(),
                b == bytes@,
                col <= utf16_col,
                byte_scan(b, self.start as int, self.end as int, utf16_col as int) == byte_scan(
                    b,
                    cur as int,
                    self.end as int,
                    utf16_col - col,
                ),
            decreases self.end - cur,
        {
            let w = scalar_width(bytes[cur]);
            let u = scalar_units(bytes[cur]);
            col = col + u;
            cur = cur + w;
        }
        cur
    }
}

/// A UTF-16 column index over a whole string, built from its line starts.
///
/// Lines end before their terminator: before `\n`, and for CRLF input before `\r\n`.
#[derive(Debug, Clone)]
pub struct Utf16Index {
    bytes: Vec<u8>,
    line_starts: Vec<usize>,
    lines: Vec<Utf16LineIndex>,
}

impl Utf16Index {
    /// The bytes of the indexed string.
    pub closed spec fn text(&self) -> Seq<u8> {
        self.bytes@
    }

    /// The line starts the index was built from.
    pub closed spec fn starts(&self) -> Seq<usize> {
        self.line_starts@
    }

    /// Start of line `i`.
    pub open spec fn line_start(&self, i: int) -> int {
        self.starts()[i] as int
    }

    /// End of line `i` (exclusive, terminator excluded).
    pub open spec fn line_end(&self, i: int) -> int {
        line_end_of(self.text(), self.starts(), i)
    }

    pub closed spec fn wf(&self) -> bool {
        &&& valid_line_starts(self.bytes@, self.line_starts@)
        &&& self.lines@.len() == self.line_starts@.len()
        &&& forall|i: int|
            #![trigger self.lines@[i]]
            0 <= i < self.lines@.len() ==> {
                &&& self.lines@[i].wf(self.bytes@)
                &&& self.lines@[i].start == self.line_starts@[i]
                &&& self.lines@[i].end == line_end_of(self.bytes@, self.line_starts@, i)
            }
    }

    /// Build an index of `s` from `line_starts`, which starts with 0, is strictly increasing
    /// and stays within `s`.
    pub fn new(s: &str, line_starts: &[usize]) -> (r: Self)
        requires
            valid_line_starts(s.spec_bytes(), line_starts@),
        ensures
            r.wf(),
            r.text() == s.spec_bytes(),
            r.starts() == line_starts@,
    {
        let bytes = s.as_bytes();
        let n = line_starts.len();
        let mut lines: Vec<Utf16LineIndex> = Vec::new();
        let mut i: usize = 0;
        while i < n
            invariant
                valid_line_starts(s.spec_bytes(), line_starts@),
                bytes@ == s.spec_bytes(),
                n == line_starts@.len(),
                0 <= i <= n,
                lines@.len() == i,
                forall|k: int|
                    #![trigger lines@[k]]
                    0 <= k < i ==> {
                        &&& lines@[k].wf(s.spec_bytes())
                        &&& lines@[k].start == line_starts@[k]
                        &&& lines@[k].end == line_end_of(s.spec_bytes(), line_starts@, k)
                    },
            decreases n - i,
        {
            let start = line_starts[i];
            let mut end = if i + 1 < n {
                line_starts[i + 1] - 1
            } else {
                bytes.len()
            };
            if i + 1 < n && end > start && bytes[end - 1] == 13u8 {
                end = end - 1;
            }
            lines.push(Utf16LineIndex::new(bytes, start, end));
            i = i + 1;
        }
        let mut starts_copy: Vec<usize> = Vec::new();
        let mut j: usize = 0;
        while j < n
            invariant
                n == line_starts@.len(),
                0 <= j <= n,
                starts_copy@ == line_starts@.subrange(0, j as int),
            decreases n - j,
        {
            starts_copy.push(line_starts[j]);
            j = j + 1;
        }
        assert(starts_copy@ == line_starts@);
        Utf16Index { bytes: s.as_bytes_vec(), line_starts: starts_copy, lines }
    }

    /// The 0-based line that contains `byte`: the last line whose start is at or before it.
    /// Past the end of the string this is the final line.
    pub fn line_for_byte(&self, byte: usize) -> (r: usize)
        requires
            self.wf(),
        ensures
            is_line_of(self.starts(), byte as int, r as int),
    {
        let starts = &self.line_starts;
        let mut lo: usize = 0;
        let mut hi: usize = starts.len();
        while hi - lo > 1
            invariant
                self.wf(),
                starts == &self.line_starts,
                0 <= lo < hi <= starts@.len(),
                starts@[lo as int] <= byte,
                hi < starts@.len() ==> byte < starts@[hi as int],
            decreases hi - lo,
        {
            let mid = lo + (hi - lo) / 2;
            if starts[mid] <= byte {
                lo = mid;
            } else {
                hi = mid;
            }
        }
        lo
    }

    /// Convert an absolute byte offset into `(line, utf16_col)`. An offset inside a multi-byte
    /// UTF-8 sequence gets the column of that scalar's start; one past the line end gets the
    /// line's length.
    pub fn byte_to_line_utf16_col(&self, byte: usize) -> (r: (usize, usize))
        requires
            self.wf(),
        ensures
            is_line_of(self.starts(), byte as int, r.0 as int),
            r.1 == byte_to_col(
                self.text(),
                self.line_start(r.0 as int),
                self.line_end(r.0 as int),
                byte as int,
            ),
            r.0 as int == self.pos_of(byte as int).0,
            r.1 as int == self.pos_of(byte as int).1,
    {
        let line = self.line_for_byte(byte);
        let col = self.lines[line].byte_to_utf16_col(self.bytes.as_slice(), byte);
        proof {
            lemma_line_index_of(self.starts(), byte as int, line as int);
        }
        (line, col)
    }

    /// Convert `(line, utf16_col)` into an absolute byte offset: `None` for a line out of range,
    /// the line end for a column past it, and the scalar's start for a column inside a
    /// surrogate pair.
    pub fn line_utf16_col_to_byte(&self, line: usize, utf16_col: usize) -> (r: Option<usize>)
        requires
            self.wf(),
        ensures
            line >= self.starts().len() ==> r is None,
            line < self.starts().len() ==> r is Some && r->Some_0 == col_to_byte(
                self.text(),
                self.line_start(line as int),
                self.line_end(line as int),
                utf16_col as int,
            ),
    {
        if line >= self.lines.len() {
            return None;
        }
        let b = self.lines[line].utf16_col_to_byte(self.bytes.as_slice(), utf16_col);
        Some(b)
    }
}

/// The line of byte `b`: the last line, from line `i` on, whose start is at or before `b`.
pub open spec fn line_index_from(starts: Seq<usize>, b: int, i: int) -> int
    decreases starts.len() - i,
{
    if 0 <= i && i + 1 < starts.len() && starts[i + 1] <= b {
        line_index_from(starts, b, i + 1)
    } else {
        i
    }
}

/// The line of byte `b`.
pub open spec fn line_index_of(starts: Seq<usize>, b: int) -> int {
    line_index_from(starts, b, 0)
}

proof fn lemma_line_index_from(starts: Seq<usize>, b: int, i: int, l: int)
    requires
        forall|x: int, y: int| 0 <= x < y < starts.len() ==> starts[x] < starts[y],
        0 <= i <= l,
        is_line_of(starts, b, l),
    ensures
        line_index_from(starts, b, i) == l,
    decreases starts.len() - i,
{
    if i + 1 < starts.len() && starts[i + 1] <= b {
        if i + 1 > l {
            assert(starts[l + 1] <= starts[i + 1]);
        }
        lemma_line_index_from(starts, b, i + 1, l);
    } else if i < l {
        assert(starts[i + 1] <= starts[l]);
    }
}

/// The line of a byte is a function of the byte: [`is_line_of`] holds of one line only.
pub proof fn lemma_line_index_of(starts: Seq<usize>, b: int, l: int)
    requires
        forall|x: int, y: int| 0 <= x < y < starts.len() ==> starts[x] < starts[y],
        is_line_of(starts, b, l),
    ensures
        line_index_of(starts, b) == l,
{
    lemma_line_index_from(starts, b, 0, l);
}

impl Utf16Index {
    /// The `(line, UTF-16 column)` of byte `b`.
    pub open spec fn pos_of(&self, b: int) -> (int, int) {
        let l = line_index_of(self.starts(), b);
        (l, byte_to_col(self.text(), self.line_start(l), self.line_end(l), b))
    }
}

} // verus!
