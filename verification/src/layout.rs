use vstd::prelude::*;
use vstd::string::StrSliceExecFns;
use crate::font::Font;
use crate::glyph::Vec2;
use crate::units::{
    round_to_pixel_spec, round_to_pixel_su, MAX_ADVANCE, MAX_INDENT, MAX_KERN, MAX_SCALE, MAX_STEP,
    MAX_TEXT_CHARS,
};

verus! {

/// The non-breaking space: whitespace, but never a wrap point.
pub const NON_BREAKING_SPACE: char = '\u{a0}';

/// The Unicode whitespace characters.
pub open spec fn spec_is_whitespace(c: char) -> bool {
    ||| c as u32 == 0x20
    ||| (0x09 <= c as u32 && c as u32 <= 0x0D)
    ||| c as u32 == 0x85
    ||| c as u32 == 0xA0
    ||| c as u32 == 0x1680
    ||| (0x2000 <= c as u32 && c as u32 <= 0x200A)
    ||| c as u32 == 0x2028
    ||| c as u32 == 0x2029
    ||| c as u32 == 0x202F
    ||| c as u32 == 0x205F
    ||| c as u32 == 0x3000
}

/// Whether a wrap may break a row after this character: any whitespace
/// character except the non-breaking space.
pub open spec fn spec_is_breakable(c: char) -> bool {
    spec_is_whitespace(c) && c != NON_BREAKING_SPACE
}

pub fn is_breakable(c: char) -> (r: bool)
    ensures
        r == spec_is_breakable(c),
{
    let u = c as u32;
    let white = u == 0x20 || (0x09 <= u && u <= 0x0D) || u == 0x85 || u == 0xA0 || u == 0x1680
        || (0x2000 <= u && u <= 0x200A) || u == 0x2028 || u == 0x2029 || u == 0x202F || u == 0x205F
        || u == 0x3000;
    white && u != 0xA0
}

/// Glyph handle that kerning pairs with next: the id of the last laid-out
/// character's glyph, if any.
pub open spec fn last_glyph_id(font: Font, s: Seq<char>) -> Option<u16> {
    if s.len() == 0 {
        None
    } else {
        Some(font.spec_glyph(s.last()).id)
    }
}

/// What one character adds to the cursor before pixel rounding: the kerning
/// adjustment against the previous glyph plus the advance width.  A kerning
/// pair so negative that it would pull the cursor left past the previous
/// offset counts as a zero step, which keeps row offsets monotone.
pub open spec fn cursor_step(font: Font, prev: Option<u16>, c: char) -> int {
    let g = font.spec_glyph(c);
    let kern: int = match prev {
        Some(p) => font.spec_kern(p, g.id),
        None => 0,
    };
    if kern + g.advance_width < 0 {
        0
    } else {
        kern + g.advance_width
    }
}

/// Cursor position after laying out `s` from position zero: each character
/// adds its step, and the cursor is rounded to the nearest pixel after every
/// character so sub-pixel drift never accumulates.
pub open spec fn spec_cursor(font: Font, s: Seq<char>) -> int
    decreases s.len(),
{
    if s.len() == 0 {
        0
    } else {
        round_to_pixel_spec(
            spec_cursor(font, s.drop_last()) + cursor_step(
                font,
                last_glyph_id(font, s.drop_last()),
                s.last(),
            ),
        )
    }
}

/// The step one character contributes is non-negative and bounded.
pub proof fn lemma_step_bounds(font: Font, prev: Option<u16>, c: char)
    requires
        font.wf(),
    ensures
        0 <= cursor_step(font, prev, c) <= MAX_ADVANCE + MAX_KERN,
{
    let g = font.spec_glyph(c);
    assert(g.wf());
    match prev {
        Some(p) => {
            assert(-MAX_KERN <= font.spec_kern(p, g.id) <= MAX_KERN);
        },
        None => {},
    }
}

/// One visual line of a galley: cumulative horizontal cursor positions (one
/// more entry than characters; entry `i` is the right edge of the `i`-th
/// character), the vertical extent, and whether the row terminates at an
/// explicit newline in the source rather than at a wrap point.
pub struct Row {
    pub x_offsets: Vec<i64>,
    pub y_min: i64,
    pub y_max: i64,
    pub ends_with_newline: bool,
    /// The span of source characters this row lays out, excluding any
    /// terminating newline.
    pub chars: Ghost<Seq<char>>,
}

impl Row {
    /// Offsets are non-decreasing, one longer than the character span, and
    /// the vertical extent is ordered.
    pub open spec fn wf(self) -> bool {
        &&& self.x_offsets@.len() == self.chars@.len() + 1
        &&& forall|i: int|
            0 <= i < self.x_offsets@.len() - 1 ==> #[trigger] self.x_offsets@[i]
                <= self.x_offsets@[i + 1]
        &&& self.y_min <= self.y_max
    }

    pub open spec fn spec_char_count(self) -> int {
        self.x_offsets@.len() - 1
    }

    pub open spec fn spec_min_x(self) -> int {
        self.x_offsets@[0] as int
    }

    /// Right edge of the row: its last cursor position.
    pub open spec fn spec_max_x(self) -> int {
        self.x_offsets@.last() as int
    }

    pub fn char_count(&self) -> (n: usize)
        requires
            self.x_offsets@.len() >= 1,
        ensures
            n == self.spec_char_count(),
    {
        self.x_offsets.len() - 1
    }

    pub fn min_x(&self) -> (x: i64)
        requires
            self.x_offsets@.len() >= 1,
        ensures
            x == self.spec_min_x(),
    {
        self.x_offsets[0]
    }

    pub fn max_x(&self) -> (x: i64)
        requires
            self.x_offsets@.len() >= 1,
        ensures
            x == self.spec_max_x(),
    {
        self.x_offsets[self.x_offsets.len() - 1]
    }
}

/// A row may render wider than the wrap width only for want of a break
/// point: whenever the offset after the row's character `j - 1` exceeds the
/// width, no character strictly before position `j - 1` in the row is
/// breakable — the overflow comes from a single unbreakable run at the row
/// start, never from declining an available wrap point.
#[verifier::opaque]
pub open spec fn row_obeys_width(row: Row, max_width: i64) -> bool {
    forall|j: int, p: int|
        #![trigger row.x_offsets@[j], row.chars@[p]]
        1 <= j < row.x_offsets@.len() && row.x_offsets@[j] > max_width && 0 <= p < j - 1
            ==> !spec_is_breakable(row.chars@[p])
}

/// The source text a sequence of rows reconstructs: each row's characters in
/// order, a newline after every row that ends at an explicit line break, and
/// nothing at a wrap point.
pub open spec fn rows_text(rows: Seq<Row>) -> Seq<char>
    decreases rows.len(),
{
    if rows.len() == 0 {
        Seq::empty()
    } else {
        rows_text(rows.drop_last()) + rows.last().chars@ + if rows.last().ends_with_newline {
            seq!['\n']
        } else {
            Seq::empty()
        }
    }
}

/// Width of the widest row: the largest right edge, at least zero.
pub open spec fn spec_widest(rows: Seq<Row>) -> int
    decreases rows.len(),
{
    if rows.len() == 0 {
        0
    } else {
        let w = spec_widest(rows.drop_last());
        if rows.last().spec_max_x() > w {
            rows.last().spec_max_x()
        } else {
            w
        }
    }
}

/// The complete result of laying out one string: the text, its rows in
/// reading order, and the bounding size (widest row, bottom of last row).
pub struct Galley {
    pub text: String,
    pub rows: Vec<Row>,
    pub size: Vec2,
}

impl Galley {
    /// A galley always has at least one row, every row is well formed, the
    /// rows together reconstruct the text, and the size is the bounding box.
    pub open spec fn wf(self) -> bool {
        &&& self.rows@.len() >= 1
        &&& forall|k: int| 0 <= k < self.rows@.len() ==> (#[trigger] self.rows@[k]).wf()
        &&& rows_text(self.rows@) == self.text@
        &&& self.size.x == spec_widest(self.rows@)
        &&& self.size.y == self.rows@.last().y_max
    }
}

/// The characters of a string, in order.
pub fn chars_of(s: &str) -> (v: Vec<char>)
    ensures
        v@ == s@,
{
    let n = s.unicode_len();
    let mut v: Vec<char> = Vec::new();
    let mut i: usize = 0;
    while i < n
        invariant
            0 <= i <= n,
            n == s@.len(),
            v@ == s@.take(i as int),
        decreases n - i,
    {
        let c = s.get_char(i);
        v.push(c);
        proof {
            assert(s@.take((i + 1) as int) =~= s@.take(i as int).push(s@[i as int]));
        }
        i += 1;
    }
    proof {
        assert(s@.take(n as int) =~= s@);
    }
    v
}

impl Font {
    /// Typeset `text` onto one row: cumulative pixel-rounded cursor
    /// positions, one more entry than there are characters.
    pub fn layout_single_row_fragment(&self, text: &[char]) -> (x_offsets: Vec<i64>)
        requires
            self.wf(),
            text@.len() <= MAX_TEXT_CHARS,
        ensures
            x_offsets@.len() == text@.len() + 1,
            forall|i: int|
                0 <= i < x_offsets@.len() ==> #[trigger] x_offsets@[i] == spec_cursor(
                    *self,
                    text@.take(i),
                ),
            forall|i: int|
                0 <= i < x_offsets@.len() - 1 ==> #[trigger] x_offsets@[i] <= x_offsets@[i + 1],
            forall|i: int|
                0 <= i < x_offsets@.len() ==> 0 <= #[trigger] x_offsets@[i] <= i * (MAX_STEP as int),
            forall|i: int| 0 <= i < x_offsets@.len() ==> #[trigger] x_offsets@[i] % 64 == 0,
            x_offsets@[0] == 0,
    {
        let n = text.len();
        let mut x_offsets: Vec<i64> = Vec::new();
        x_offsets.push(0);
        let mut cursor: i64 = 0;
        let mut last_id: Option<u16> = None;
        proof {
            assert(text@.take(0) =~= Seq::<char>::empty());
        }
        let mut i: usize = 0;
        while i < n
            invariant
                self.wf(),
                n == text@.len(),
                n <= MAX_TEXT_CHARS,
                0 <= i <= n,
                x_offsets@.len() == i + 1,
                forall|j: int|
                    0 <= j <= i ==> #[trigger] x_offsets@[j] == spec_cursor(*self, text@.take(j)),
                forall|j: int|
                    0 <= j < i ==> #[trigger] x_offsets@[j] <= x_offsets@[j + 1],
                forall|j: int|
                    0 <= j <= i ==> 0 <= #[trigger] x_offsets@[j] <= j * (MAX_STEP as int),
                forall|j: int| 0 <= j <= i ==> #[trigger] x_offsets@[j] % 64 == 0,
                cursor == spec_cursor(*self, text@.take(i as int)),
                last_id == last_glyph_id(*self, text@.take(i as int)),
                0 <= cursor <= (i as int) * (MAX_STEP as int),
                cursor % 64 == 0,
            decreases n - i,
        {
            let ghost prefix = text@.take(i as int);
            let c = text[i];
            let g = self.glyph_or_replacement(c);
            let kern: i64 = match last_id {
                Some(p) => self.pair_kerning(p, g.id),
                None => 0,
            };
            proof {
                lemma_step_bounds(*self, last_glyph_id(*self, prefix), c);
                assert(g.wf());
                vstd::arithmetic::mul::lemma_mul_inequality(
                    i as int,
                    MAX_TEXT_CHARS as int,
                    MAX_STEP as int,
                );
            }
            let sum: i64 = kern + g.advance_width;
            let step: i64 = if sum < 0 {
                0
            } else {
                sum
            };
            assert(step == cursor_step(*self, last_glyph_id(*self, prefix), c));
            let next = round_to_pixel_su(cursor + step);
            proof {
                let t1 = text@.take((i + 1) as int);
                assert(t1.drop_last() =~= prefix);
                assert(t1.last() == text@[i as int]);
                crate::units::lemma_round_close((cursor + step) as int);
                crate::units::lemma_round_keeps_floor(cursor as int, (cursor + step) as int);
                assert(next == spec_cursor(*self, t1));
                assert(((i + 1) as int) * (MAX_STEP as int) == (i as int) * (MAX_STEP as int)
                    + MAX_STEP) by (nonlinear_arith);
            }
            cursor = next;
            last_id = Some(g.id);
            x_offsets.push(cursor);
            i += 1;
        }
        x_offsets
    }

    /// Typeset the given text onto exactly one row, ignoring wrap width.
    /// A newline character is laid out like any other (it renders as the
    /// replacement glyph); single-line layout never produces a line break.
    pub fn layout_single_line(&self, text: String) -> (galley: Galley)
        requires
            self.wf(),
            text@.len() <= MAX_TEXT_CHARS,
        ensures
            galley.wf(),
            galley.text == text,
            galley.rows@.len() == 1,
            galley.rows@[0].chars@ == text@,
            galley.rows@[0].ends_with_newline == false,
            galley.rows@[0].x_offsets@.len() == text@.len() + 1,
            galley.rows@[0].x_offsets@[0] == 0,
            forall|i: int|
                0 <= i < text@.len() + 1 ==> #[trigger] galley.rows@[0].x_offsets@[i]
                    == spec_cursor(*self, text@.take(i)),
            galley.rows@[0].y_min == 0,
            galley.rows@[0].y_max == self.spec_row_height(),
            galley.size.y == self.spec_row_height(),
            galley.size.x == galley.rows@[0].spec_max_x(),
    {
        let chars = chars_of(text.as_str());
        let x_offsets = self.layout_single_row_fragment(chars.as_slice());
        let width = x_offsets[x_offsets.len() - 1];
        let row = Row {
            x_offsets,
            y_min: 0,
            y_max: self.row_height(),
            ends_with_newline: false,
            chars: Ghost(text@),
        };
        let mut rows: Vec<Row> = Vec::new();
        rows.push(row);
        let size = Vec2 { x: width, y: self.row_height() };
        proof {
            assert(rows@.drop_last() =~= Seq::<Row>::empty());
            assert(rows_text(Seq::<Row>::empty()) == Seq::<char>::empty());
            assert(spec_widest(Seq::<Row>::empty()) == 0);
            assert(rows@.last() == rows@[0]);
            assert(rows_text(rows@) =~= text@);
            let r = rows@[0];
            assert(r.x_offsets@.last() == r.x_offsets@[r.x_offsets@.len() - 1]);
            assert(r.spec_max_x() >= 0);
        }
        Galley { text, rows, size }
    }
}

/// What holds of every row a paragraph wrap emits: well-formed, ended by a
/// wrap point (never a newline), exactly one row height tall, and wider than
/// the wrap width only for want of a break point.
#[verifier::opaque]
pub open spec fn paragraph_row_ok(row: Row, h: int, max_width: i64) -> bool {
    &&& row.wf()
    &&& row.ends_with_newline == false
    &&& row.y_max == row.y_min + h
    &&& row_obeys_width(row, max_width)
}

/// A row whose offsets are a contiguous slice of the paragraph's cumulative
/// offsets, shifted so the row starts at its own origin.
fn shifted_row(
    full: &Vec<i64>,
    from: usize,
    to: usize,
    indent: i64,
    row_start_x: i64,
    y_min: i64,
    y_max: i64,
    span: Ghost<Seq<char>>,
) -> (row: Row)
    requires
        from <= to < full@.len(),
        to <= MAX_TEXT_CHARS,
        span@.len() == to - from,
        forall|j: int| from <= j < to ==> #[trigger] full@[j] <= full@[j + 1],
        forall|j: int|
            from <= j <= to ==> 0 <= #[trigger] full@[j] <= (MAX_TEXT_CHARS as int) * (
            MAX_STEP as int),
        0 <= indent <= MAX_INDENT,
        0 <= row_start_x <= indent + full@[from as int],
        y_min <= y_max,
    ensures
        row.x_offsets@.len() == to - from + 1,
        forall|j: int|
            0 <= j <= to - from ==> #[trigger] row.x_offsets@[j] == indent + full@[from + j]
                - row_start_x,
        row.y_min == y_min,
        row.y_max == y_max,
        row.ends_with_newline == false,
        row.chars == span,
        row.wf(),
{
    let mut x_offsets: Vec<i64> = Vec::new();
    let mut j: usize = from;
    while j <= to
        invariant
            from <= j <= to + 1,
            to < full@.len(),
            to <= MAX_TEXT_CHARS,
            forall|q: int| from <= q < to ==> #[trigger] full@[q] <= full@[q + 1],
            forall|q: int|
                from <= q <= to ==> 0 <= #[trigger] full@[q] <= (MAX_TEXT_CHARS as int) * (
                MAX_STEP as int),
            0 <= indent <= MAX_INDENT,
            0 <= row_start_x <= indent + full@[from as int],
            x_offsets@.len() == j - from,
            forall|q: int|
                0 <= q < j - from ==> #[trigger] x_offsets@[q] == indent + full@[from + q]
                    - row_start_x,
        decreases to + 1 - j,
    {
        proof {
            lemma_full_monotone(full@, from as int, j as int, to as int);
        }
        x_offsets.push(indent + full[j] - row_start_x);
        j += 1;
    }
    let row = Row { x_offsets, y_min, y_max, ends_with_newline: false, chars: span };
    proof {
        assert forall|q: int| 0 <= q < row.x_offsets@.len() - 1 implies #[trigger] row.x_offsets@[q]
            <= row.x_offsets@[q + 1] by {
            assert(full@[from + q] <= full@[from + q + 1]);
        }
    }
    row
}

/// Everything the wrap maintains of the rows it has emitted so far: each row
/// is acceptable on its own, the first row starts at the requested
/// indentation and at the top, later rows start at zero, and consecutive
/// rows stack by one pixel-rounded row height.
#[verifier::opaque]
pub open spec fn paragraph_rows_ok(
    rows: Seq<Row>,
    h: int,
    max_width: i64,
    first_indent: i64,
) -> bool {
    &&& forall|k: int| 0 <= k < rows.len() ==> paragraph_row_ok(#[trigger] rows[k], h, max_width)
    &&& rows.len() > 0 ==> rows[0].y_min == 0 && rows[0].x_offsets@[0] == first_indent
    &&& forall|k: int| 1 <= k < rows.len() ==> (#[trigger] rows[k]).x_offsets@[0] == 0
    &&& forall|k: int|
        0 <= k < rows.len() - 1 ==> (#[trigger] rows[k + 1]).y_min == round_to_pixel_spec(
            rows[k].y_min + h,
        )
    &&& forall|k: int|
        0 <= k < rows.len() ==> 0 <= (#[trigger] rows[k]).y_min && rows[k].y_min % 64 == 0
            && rows[k].y_max <= (k + 1) * ((MAX_SCALE as int) + 32)
}

/// Appending a row extends the reconstructed text by the row's span, plus a
/// newline when the row records one.
pub proof fn lemma_rows_text_push(rows: Seq<Row>, r: Row)
    ensures
        rows_text(rows.push(r)) == rows_text(rows) + r.chars@ + if r.ends_with_newline {
            seq!['\n']
        } else {
            Seq::empty()
        },
{
    assert(rows.push(r).drop_last() =~= rows);
    assert(rows.push(r).last() == r);
}

/// Appending an acceptable row at the running vertical cursor preserves
/// everything the wrap maintains of its emitted rows.
pub proof fn lemma_rows_ok_push(
    rows: Seq<Row>,
    r: Row,
    h: int,
    max_width: i64,
    first_indent: i64,
    cy: int,
)
    requires
        paragraph_rows_ok(rows, h, max_width, first_indent),
        paragraph_row_ok(r, h, max_width),
        0 < h <= MAX_SCALE,
        r.y_min == cy,
        cy % 64 == 0,
        0 <= cy <= rows.len() * ((MAX_SCALE as int) + 32),
        rows.len() > 0 ==> cy == round_to_pixel_spec(rows.last().y_min + h),
        rows.len() == 0 ==> cy == 0 && r.x_offsets@[0] == first_indent,
        rows.len() > 0 ==> r.x_offsets@[0] == 0,
    ensures
        paragraph_rows_ok(rows.push(r), h, max_width, first_indent),
{
    reveal(paragraph_rows_ok);
    reveal(paragraph_row_ok);
    let out = rows.push(r);
    let len = out.len();
    assert(out.last() == r);
    assert(len * ((MAX_SCALE as int) + 32) == (len - 1) * ((MAX_SCALE as int) + 32) + ((
    MAX_SCALE as int) + 32)) by (nonlinear_arith);
    assert forall|k: int| 0 <= k < len implies paragraph_row_ok(
        #[trigger] out[k],
        h,
        max_width,
    ) by {
        if k < len - 1 {
            assert(out[k] == rows[k]);
        }
    }
    assert forall|k: int| 1 <= k < len implies (#[trigger] out[k]).x_offsets@[0] == 0 by {
        if k < len - 1 {
            assert(out[k] == rows[k]);
        }
    }
    assert forall|k: int| 0 <= k < len - 1 implies (#[trigger] out[k + 1]).y_min
        == round_to_pixel_spec(out[k].y_min + h) by {
        if k < len - 2 {
            assert(out[k] == rows[k]);
            assert(out[k + 1] == rows[k + 1]);
        } else {
            assert(out[k] == rows[k]);
            assert(rows.last() == rows[len - 2]);
        }
    }
    assert forall|k: int| 0 <= k < len implies 0 <= (#[trigger] out[k]).y_min && out[k].y_min % 64
        == 0 && out[k].y_max <= (k + 1) * ((MAX_SCALE as int) + 32) by {
        if k < len - 1 {
            assert(out[k] == rows[k]);
        }
    }
}

impl Font {
    /// Greedy word wrap of one paragraph (text containing no newline
    /// character) at the given wrap width, with optional extra space before
    /// the very first character.  Trailing whitespace stays at the end of a
    /// broken row; a word longer than the width overflows rather than being
    /// broken mid-word; a non-zero indentation that overflows before any
    /// break point yields one intentionally blank first row, and the content
    /// restarts below without indentation.  Always returns at least one row.
    #[verifier::rlimit(100)]
    pub fn layout_paragraph_max_width(
        &self,
        text: &[char],
        first_row_indentation: i64,
        max_width: i64,
    ) -> (rows: Vec<Row>)
        requires
            self.wf(),
            text@.len() <= MAX_TEXT_CHARS,
            0 <= first_row_indentation <= MAX_INDENT,
            forall|g: int| 0 <= g < text@.len() ==> text@[g] != '\n',
        ensures
            rows@.len() >= 1,
            rows@.len() <= text@.len() + 1,
            rows_text(rows@) == text@,
            paragraph_rows_ok(rows@, self.spec_row_height(), max_width, first_row_indentation),
            rows_newline_free(rows@),
            rows_stacked(rows@, self.spec_row_height()),
            rows_break_at_whitespace(rows@, first_row_indentation),
            text@.len() > 0 ==> rows@.last().chars@.len() >= 1,
            text@.len() == 0 ==> rows@.len() == 1 && rows@[0].chars@.len() == 0,
    {
        let h = self.row_height();
        let ghost hh = self.spec_row_height();
        let n = text.len();
        if n == 0 {
            return indentation_only_rows(first_row_indentation, h, max_width);
        }
        let full = self.layout_single_row_fragment(text);
        let mut out_rows: Vec<Row> = Vec::new();
        proof {
            assert(paragraph_rows_ok(out_rows@, hh, max_width, first_row_indentation)) by {
                reveal(paragraph_rows_ok);
            }
            assert(rows_newline_free(out_rows@)) by {
                reveal(rows_newline_free);
            }
            assert(all_rows_break_at_whitespace(out_rows@, first_row_indentation)) by {
                reveal(all_rows_break_at_whitespace);
            }
        }
        let mut row_start_x: i64 = 0;
        let mut cursor_y: i64 = 0;
        let mut row_start_idx: usize = 0;
        let mut last_space: Option<usize> = None;
        let mut indent: i64 = first_row_indentation;
        let mut i: usize = 0;
        while i < n
            invariant
                self.wf(),
                hh == self.spec_row_height(),
                h == hh,
                0 < h <= MAX_SCALE,
                n == text@.len(),
                1 <= n <= MAX_TEXT_CHARS,
                forall|g: int| 0 <= g < n ==> text@[g] != '\n',
                full@.len() == n + 1,
                full@[0] == 0,
                forall|j: int| 0 <= j < n ==> #[trigger] full@[j] <= full@[j + 1],
                forall|j: int|
                    0 <= j <= n ==> 0 <= #[trigger] full@[j] <= (MAX_TEXT_CHARS as int) * (
                    MAX_STEP as int),
                0 <= i <= n,
                row_start_idx <= i,
                0 <= indent <= MAX_INDENT,
                out_rows@.len() == 0 ==> indent == first_row_indentation && row_start_idx == 0
                    && row_start_x == 0 && cursor_y == 0,
                row_start_idx == 0 ==> row_start_x == 0,
                row_start_idx > 0 ==> out_rows@.len() > 0 && row_start_x == indent + full@[
                    row_start_idx as int],
                row_start_idx == 0 && out_rows@.len() > 0 ==> indent == 0,
                out_rows@.len() <= i,
                cursor_y % 64 == 0,
                0 <= cursor_y <= out_rows@.len() * ((MAX_SCALE as int) + 32),
                out_rows@.len() > 0 ==> cursor_y == round_to_pixel_spec(
                    out_rows@.last().y_min + hh,
                ),
                rows_text(out_rows@) == text@.take(row_start_idx as int),
                paragraph_rows_ok(out_rows@, hh, max_width, first_row_indentation),
                rows_newline_free(out_rows@),
                all_rows_break_at_whitespace(out_rows@, first_row_indentation),
                row_start_idx > 0 ==> out_rows@.last().chars@.len() >= 1,
                last_space is None ==> (forall|g: int|
                    row_start_idx <= g < i ==> !spec_is_breakable(#[trigger] text@[g])),
                last_space matches Some(ls) ==> row_start_idx <= ls < i && spec_is_breakable(
                    text@[ls as int],
                ) && (forall|g: int| ls < g < i ==> !spec_is_breakable(#[trigger] text@[g])),
                forall|g: int, p: int|
                    #![trigger full@[g + 1], text@[p]]
                    row_start_idx <= g < i && row_start_idx <= p <= g - 1 && indent + full@[g + 1]
                        - row_start_x > max_width ==> !spec_is_breakable(text@[p]),
            decreases n - i,
        {
            proof {
                vstd::arithmetic::mul::lemma_mul_inequality(
                    out_rows@.len() as int,
                    MAX_TEXT_CHARS as int,
                    (MAX_SCALE as int) + 32,
                );
            }
            let x_next = full[i + 1];
            let potential_row_width = indent + x_next - row_start_x;
            if potential_row_width > max_width {
                if let Some(ls) = last_space {
                    let ghost old_rows = out_rows@;
                    let ghost old_rs = row_start_idx as int;
                    let ghost cy = cursor_y as int;
                    proof {
                        assert forall|g: int| row_start_idx <= g < ls + 1 implies text@[g]
                            != '\n' by {
                            assert(text@[g] != '\n');
                        }
                    }
                    push_wrapped_row(
                        &mut out_rows,
                        &full,
                        Ghost(text@),
                        n,
                        row_start_idx,
                        ls + 1,
                        row_start_x,
                        indent,
                        cursor_y,
                        h,
                        max_width,
                        first_row_indentation,
                    );
                    row_start_idx = ls + 1;
                    row_start_x = indent + full[row_start_idx];
                    last_space = None;
                    cursor_y = round_to_pixel_su(cursor_y + h);
                    proof {
                        assert(spec_is_breakable(text@[ls as int]));
                        let a = old_rows.len() as int;
                        let cc = (MAX_SCALE as int) + 32;
                        assert((a + 1) * cc == a * cc + cc) by (nonlinear_arith);
                        assert forall|g: int, p: int|
                            #![trigger full@[g + 1], text@[p]]
                            row_start_idx <= g < i + 1 && row_start_idx <= p <= g - 1 && indent
                                + full@[g + 1] - row_start_x > max_width implies !spec_is_breakable(
                            text@[p],
                        ) by {
                            assert(ls < p < i + 1);
                        }
                    }
                } else if out_rows.len() == 0 && indent > 0 {
                    let ghost old_rows = out_rows@;
                    let mut xo: Vec<i64> = Vec::new();
                    xo.push(indent);
                    let row = Row {
                        x_offsets: xo,
                        y_min: cursor_y,
                        y_max: cursor_y + h,
                        ends_with_newline: false,
                        chars: Ghost(Seq::empty()),
                    };
                    let ghost blankrow = row;
                    proof {
                        assert(row_obeys_width(blankrow, max_width)) by {
                            reveal(row_obeys_width);
                        }
                        assert(paragraph_row_ok(blankrow, hh, max_width)) by {
                            reveal(paragraph_row_ok);
                        }
                        lemma_rows_text_push(old_rows, blankrow);
                        lemma_rows_ok_push(
                            old_rows,
                            blankrow,
                            hh,
                            max_width,
                            first_row_indentation,
                            0,
                        );
                    }
                    out_rows.push(row);
                    cursor_y = round_to_pixel_su(cursor_y + h);
                    indent = 0;
                    proof {
                        assert(out_rows@ == old_rows.push(blankrow));
                        assert(out_rows@.len() == 1);
                        assert(rows_text(out_rows@) =~= text@.take(row_start_idx as int));
                        lemma_newline_free_push(old_rows, blankrow);
                        lemma_all_break_push(old_rows, blankrow, first_row_indentation);
                    }
                }
            }
            let c = text[i];
            if is_breakable(c) {
                last_space = Some(i);
            }
            i += 1;
        }
        let ghost preflush = out_rows@;
        if row_start_idx < n {
            proof {
                assert forall|g: int| row_start_idx <= g < n implies text@[g] != '\n' by {
                    assert(text@[g] != '\n');
                }
            }
            push_wrapped_row(
                &mut out_rows,
                &full,
                Ghost(text@),
                n,
                row_start_idx,
                n,
                row_start_x,
                indent,
                cursor_y,
                h,
                max_width,
                first_row_indentation,
            );
            proof {
                assert(text@.take(n as int) =~= text@);
                let newrow = out_rows@.last();
                assert(out_rows@ =~= preflush.push(newrow));
                lemma_break_ws_from_all(preflush, Some(newrow), first_row_indentation);
                lemma_rows_ok_stacked(out_rows@, hh, max_width, first_row_indentation);
            }
        } else {
            proof {
                assert(row_start_idx == n);
                assert(text@.take(n as int) =~= text@);
                lemma_break_ws_from_all(out_rows@, None, first_row_indentation);
                lemma_rows_ok_stacked(out_rows@, hh, max_width, first_row_indentation);
            }
        }
        out_rows
    }
}


/// Emit one wrapped row covering characters `[from, to)` of the paragraph,
/// at the running vertical cursor.
#[verifier::rlimit(100)]
fn push_wrapped_row(
    out_rows: &mut Vec<Row>,
    full: &Vec<i64>,
    text: Ghost<Seq<char>>,
    n: usize,
    from: usize,
    to: usize,
    row_start_x: i64,
    indent: i64,
    cursor_y: i64,
    h: i64,
    max_width: i64,
    first_row_indentation: i64,
)
    requires
        from < to <= n,
        n == text@.len(),
        n <= MAX_TEXT_CHARS,
        full@.len() == n + 1,
        full@[0] == 0,
        forall|j: int| 0 <= j < n ==> #[trigger] full@[j] <= full@[j + 1],
        forall|j: int|
            0 <= j <= n ==> 0 <= #[trigger] full@[j] <= (MAX_TEXT_CHARS as int) * (MAX_STEP as int),
        0 <= indent <= MAX_INDENT,
        old(out_rows)@.len() == 0 ==> indent == first_row_indentation && from == 0 && row_start_x
            == 0 && cursor_y == 0,
        from == 0 ==> row_start_x == 0,
        from > 0 ==> old(out_rows)@.len() > 0 && row_start_x == indent + full@[from as int],
        from == 0 && old(out_rows)@.len() > 0 ==> indent == 0,
        0 < h <= MAX_SCALE,
        cursor_y % 64 == 0,
        0 <= cursor_y <= old(out_rows)@.len() * ((MAX_SCALE as int) + 32),
        old(out_rows)@.len() > 0 ==> cursor_y == round_to_pixel_spec(
            old(out_rows)@.last().y_min + h,
        ),
        old(out_rows)@.len() <= MAX_TEXT_CHARS,
        rows_text(old(out_rows)@) == text@.take(from as int),
        paragraph_rows_ok(old(out_rows)@, h as int, max_width, first_row_indentation),
        rows_newline_free(old(out_rows)@),
        all_rows_break_at_whitespace(old(out_rows)@, first_row_indentation),
        forall|g: int| from <= g < to ==> text@[g] != '\n',
        forall|g: int, p: int|
            #![trigger full@[g + 1], text@[p]]
            from <= g < to && from <= p <= g - 1 && indent + full@[g + 1] - row_start_x > max_width
                ==> !spec_is_breakable(text@[p]),
    ensures
        final(out_rows)@.len() == old(out_rows)@.len() + 1,
        final(out_rows)@.drop_last() == old(out_rows)@,
        final(out_rows)@.last().chars@ == text@.subrange(from as int, to as int),
        final(out_rows)@.last().ends_with_newline == false,
        rows_text(final(out_rows)@) == text@.take(to as int),
        paragraph_rows_ok(final(out_rows)@, h as int, max_width, first_row_indentation),
        final(out_rows)@.last().y_min == cursor_y,
        rows_newline_free(final(out_rows)@),
        spec_is_breakable(text@[to - 1]) ==> all_rows_break_at_whitespace(
            final(out_rows)@,
            first_row_indentation,
        ),
{
    let ghost hh = h as int;
    proof {
        vstd::arithmetic::mul::lemma_mul_inequality(
            out_rows@.len() as int,
            MAX_TEXT_CHARS as int,
            (MAX_SCALE as int) + 32,
        );
    }
    let ghost old_rows = out_rows@;
    let ghost old_rs = from as int;
    let ghost rsx = row_start_x;
    let ghost cy = cursor_y as int;
    let row = shifted_row(
        full,
        from,
        to,
        indent,
        row_start_x,
        cursor_y,
        cursor_y + h,
        Ghost(text@.subrange(from as int, to as int)),
    );
    let ghost emitted = row;
    proof {
        assert(row_obeys_width(emitted, max_width)) by {
            reveal(row_obeys_width);
            assert forall|j: int, p: int|
                1 <= j < emitted.x_offsets@.len() && emitted.x_offsets@[j] > max_width && 0 <= p < j
                    - 1 implies !spec_is_breakable(emitted.chars@[p]) by {
                let g = old_rs + j - 1;
                assert(emitted.x_offsets@[j] == indent + full@[old_rs + j] - rsx);
                assert(full@[g + 1] == full@[old_rs + j]);
                assert(emitted.chars@[p] == text@[old_rs + p]);
                assert(!spec_is_breakable(text@[old_rs + p]));
            }
        }
        assert(paragraph_row_ok(emitted, hh, max_width)) by {
            reveal(paragraph_row_ok);
        }
        if old_rows.len() == 0 {
            assert(emitted.x_offsets@[0] == indent + full@[0] - 0);
        } else if old_rs == 0 {
            assert(emitted.x_offsets@[0] == 0 + full@[0] - 0);
        } else {
            assert(emitted.x_offsets@[0] == indent + full@[old_rs] - rsx);
        }
        lemma_rows_text_push(old_rows, emitted);
        lemma_rows_ok_push(old_rows, emitted, hh, max_width, first_row_indentation, cy);
    }
    out_rows.push(row);
    proof {
        assert(out_rows@ == old_rows.push(emitted));
        assert(text@.take(to as int) =~= text@.take(old_rs) + text@.subrange(old_rs, to as int));
        assert(rows_text(out_rows@) =~= text@.take(to as int));
        assert forall|p: int| 0 <= p < emitted.chars@.len() implies emitted.chars@[p]
            != '\n' by {
            assert(emitted.chars@[p] == text@[old_rs + p]);
        }
        lemma_newline_free_push(old_rows, emitted);
        if spec_is_breakable(text@[to - 1]) {
            assert(emitted.chars@.last() == text@[to - 1]);
            lemma_all_break_push(old_rows, emitted, first_row_indentation);
        }
    }
}

/// What holds of every row of a finished multi-paragraph galley.
pub open spec fn galley_row_ok(row: Row, h: int, max_width: i64) -> bool {
    &&& row.wf()
    &&& row.y_max == row.y_min + h
    &&& row.y_min >= 0
    &&& row_obeys_width(row, max_width)
}

/// Whether a row may exceed the wrap width depends only on its offsets and
/// its characters, not on its vertical placement or line-break mark.
pub proof fn lemma_row_obeys_width_same(a: Row, b: Row, max_width: i64)
    requires
        a.x_offsets@ == b.x_offsets@,
        a.chars@ == b.chars@,
    ensures
        row_obeys_width(a, max_width) == row_obeys_width(b, max_width),
{
    reveal(row_obeys_width);
}

/// Everything `paragraph_rows_ok` packs, spelled out for callers.
pub proof fn lemma_rows_ok_facts(rows: Seq<Row>, h: int, max_width: i64, first_indent: i64)
    requires
        paragraph_rows_ok(rows, h, max_width, first_indent),
    ensures
        forall|k: int|
            0 <= k < rows.len() ==> (#[trigger] rows[k]).wf() && rows[k].ends_with_newline == false
                && rows[k].y_max == rows[k].y_min + h && row_obeys_width(rows[k], max_width) && 0
                <= rows[k].y_min && rows[k].y_max <= (k + 1) * ((MAX_SCALE as int) + 32),
        rows.len() > 0 ==> rows[0].y_min == 0 && rows[0].x_offsets@[0] == first_indent,
        forall|k: int| 1 <= k < rows.len() ==> (#[trigger] rows[k]).x_offsets@[0] == 0,
{
    reveal(paragraph_rows_ok);
    reveal(paragraph_row_ok);
}

/// The text of concatenated row sequences is the concatenation of their
/// texts.
pub proof fn lemma_rows_text_concat(a: Seq<Row>, b: Seq<Row>)
    ensures
        rows_text(a + b) == rows_text(a) + rows_text(b),
    decreases b.len(),
{
    if b.len() == 0 {
        assert(a + b =~= a);
        assert(rows_text(a) + rows_text(b) =~= rows_text(a));
    } else {
        lemma_rows_text_concat(a, b.drop_last());
        assert((a + b).drop_last() =~= a + b.drop_last());
        assert((a + b).last() == b.last());
        assert(rows_text(a + b) =~= rows_text(a) + rows_text(b));
    }
}

/// Marking the last row as newline-terminated appends that newline to the
/// reconstructed text and changes nothing else.
fn mark_last_ends_with_newline(rows: &mut Vec<Row>)
    requires
        old(rows)@.len() >= 1,
    ensures
        final(rows)@.len() == old(rows)@.len(),
        forall|k: int| 0 <= k < old(rows)@.len() - 1 ==> final(rows)@[k] == old(rows)@[k],
        final(rows)@.last().x_offsets@ == old(rows)@.last().x_offsets@,
        final(rows)@.last().chars@ == old(rows)@.last().chars@,
        final(rows)@.last().y_min == old(rows)@.last().y_min,
        final(rows)@.last().y_max == old(rows)@.last().y_max,
        final(rows)@.last().ends_with_newline == true,
        old(rows)@.last().ends_with_newline == false ==> rows_text(final(rows)@) == rows_text(
            old(rows)@,
        ) + seq!['\n'],
{
    let ghost before = rows@;
    let r = rows.pop().unwrap();
    let flagged = Row {
        x_offsets: r.x_offsets,
        y_min: r.y_min,
        y_max: r.y_max,
        ends_with_newline: true,
        chars: r.chars,
    };
    let ghost flagged_g = flagged;
    rows.push(flagged);
    proof {
        assert(rows@ =~= before.drop_last().push(flagged_g));
        assert(rows@.drop_last() =~= before.drop_last());
        if !before.last().ends_with_newline {
            assert(rows_text(before) =~= rows_text(before.drop_last()) + before.last().chars@);
            assert(rows_text(rows@) =~= rows_text(before) + seq!['\n']);
        }
    }
}

/// Move a block of rows down by `dy` subunits; everything else is kept.
fn shift_rows_y(rows: Vec<Row>, dy: i64) -> (out: Vec<Row>)
    requires
        0 <= dy <= 0x40_0000_0000_0000,
        forall|k: int|
            0 <= k < rows@.len() ==> 0 <= (#[trigger] rows@[k]).y_min && rows@[k].y_min
                <= rows@[k].y_max <= 0x40_0000_0000_0000,
    ensures
        out@.len() == rows@.len(),
        forall|k: int|
            0 <= k < rows@.len() ==> {
                &&& (#[trigger] out@[k]).x_offsets@ == rows@[k].x_offsets@
                &&& out@[k].chars@ == rows@[k].chars@
                &&& out@[k].ends_with_newline == rows@[k].ends_with_newline
                &&& out@[k].y_min == rows@[k].y_min + dy
                &&& out@[k].y_max == rows@[k].y_max + dy
            },
        rows_text(out@) == rows_text(rows@),
{
    let ghost orig = rows@;
    let mut rows = rows;
    let mut out: Vec<Row> = Vec::new();
    let n = rows.len();
    let mut k: usize = 0;
    while k < n
        invariant
            0 <= k <= n,
            n == orig.len(),
            rows@ =~= orig.skip(k as int),
            out@.len() == k,
            0 <= dy <= 0x40_0000_0000_0000,
            forall|q: int|
                0 <= q < orig.len() ==> 0 <= (#[trigger] orig[q]).y_min && orig[q].y_min
                    <= orig[q].y_max <= 0x40_0000_0000_0000,
            forall|q: int|
                0 <= q < k ==> {
                    &&& (#[trigger] out@[q]).x_offsets@ == orig[q].x_offsets@
                    &&& out@[q].chars@ == orig[q].chars@
                    &&& out@[q].ends_with_newline == orig[q].ends_with_newline
                    &&& out@[q].y_min == orig[q].y_min + dy
                    &&& out@[q].y_max == orig[q].y_max + dy
                },
        decreases n - k,
    {
        let r = rows.remove(0);
        proof {
            assert(orig.skip(k as int)[0] == orig[k as int]);
            assert(orig.skip(k as int).remove(0) =~= orig.skip(k as int + 1));
        }
        let shifted = Row {
            x_offsets: r.x_offsets,
            y_min: r.y_min + dy,
            y_max: r.y_max + dy,
            ends_with_newline: r.ends_with_newline,
            chars: r.chars,
        };
        out.push(shifted);
        k += 1;
    }
    proof {
        lemma_rows_text_congruence(out@, orig);
    }
    out
}

/// Two row sequences with the same spans and the same line-break marks
/// reconstruct the same text.
pub proof fn lemma_rows_text_congruence(a: Seq<Row>, b: Seq<Row>)
    requires
        a.len() == b.len(),
        forall|k: int|
            0 <= k < a.len() ==> (#[trigger] a[k]).chars@ == b[k].chars@
                && a[k].ends_with_newline == b[k].ends_with_newline,
    ensures
        rows_text(a) == rows_text(b),
    decreases a.len(),
{
    if a.len() > 0 {
        lemma_rows_text_congruence(a.drop_last(), b.drop_last());
        assert(a.last() == a[a.len() - 1]);
        assert(rows_text(a) =~= rows_text(b));
    }
}

/// Move every row of `src` to the end of `dst`, in order.
fn append_rows(dst: &mut Vec<Row>, src: Vec<Row>)
    ensures
        final(dst)@ == old(dst)@ + src@,
{
    let ghost dst0 = old(dst)@;
    let ghost src0 = src@;
    let mut src = src;
    let n = src.len();
    let mut k: usize = 0;
    while k < n
        invariant
            0 <= k <= n,
            n == src0.len(),
            src@ =~= src0.skip(k as int),
            dst@ =~= dst0 + src0.take(k as int),
        decreases n - k,
    {
        let r = src.remove(0);
        proof {
            assert(src0.skip(k as int)[0] == src0[k as int]);
            assert(src0.skip(k as int).remove(0) =~= src0.skip(k as int + 1));
        }
        dst.push(r);
        proof {
            assert(dst0 + src0.take(k as int + 1) =~= (dst0 + src0.take(k as int)).push(
                src0[k as int],
            ));
        }
        k += 1;
    }
    proof {
        assert(src0.take(n as int) =~= src0);
    }
}

impl Font {
    /// Split the text into paragraphs at explicit newlines, wrap each
    /// paragraph at `max_width` (the first with the given indentation),
    /// stack the paragraphs vertically with an extra inter-paragraph gap of
    /// two fifths of a row height, and append one final blank row when the
    /// text is empty or ends with a newline, so trailing newlines show as
    /// blank lines.  Always returns at least one row.
    #[verifier::rlimit(100)]
    pub fn layout_multiline_with_indentation_and_max_width(
        &self,
        text: String,
        first_row_indentation: i64,
        max_width: i64,
    ) -> (galley: Galley)
        requires
            self.wf(),
            text@.len() <= MAX_TEXT_CHARS,
            0 <= first_row_indentation <= MAX_INDENT,
        ensures
            galley.wf(),
            galley.text == text,
            galley.rows@.len() >= 1,
            rows_text(galley.rows@) == text@,
            forall|k: int|
                0 <= k < galley.rows@.len() ==> galley_row_ok(
                    #[trigger] galley.rows@[k],
                    self.spec_row_height(),
                    max_width,
                ),
            galley.rows@[0].y_min == 0,
            text@.len() > 0 ==> galley.rows@[0].x_offsets@[0] == first_row_indentation,
            text@.len() == 0 ==> galley.rows@.len() == 1 && galley.rows@[0].chars@.len() == 0
                && galley.rows@[0].x_offsets@ == seq![0i64] && galley.rows@[0].y_max
                == self.spec_row_height() && galley.rows@[0].ends_with_newline == false,
            text@.len() > 0 && text@.last() == '\n' ==> galley.rows@.len() >= 2
                && galley.rows@.last().chars@.len() == 0 && galley.rows@.last().x_offsets@ == seq![
                0i64,
            ] && galley.rows@.last().ends_with_newline == false && galley.rows@[galley.rows@.len()
                - 2].ends_with_newline == true,
            forall|k: int| 1 <= k < galley.rows@.len() ==> (#[trigger] galley.rows@[k]).x_offsets@[0]
                == 0,
            rows_newline_free(galley.rows@),
            rows_stacked(galley.rows@, self.spec_row_height()),
            rows_break_at_whitespace(galley.rows@, first_row_indentation),
            text@.len() > 0 && text@.last() != '\n' ==> galley.rows@.last().chars@.len() >= 1,
    {
        let h = self.row_height();
        let ghost hh = self.spec_row_height();
        let chars = chars_of(text.as_str());
        let n = chars.len();
        let mut rows: Vec<Row> = Vec::new();
        let mut cursor_y: i64 = 0;
        let mut paragraph_start: usize = 0;
        proof {
            assert(rows_newline_free(rows@)) by {
                reveal(rows_newline_free);
            }
            assert(rows_stacked(rows@, hh)) by {
                reveal(rows_stacked);
            }
            assert(rows_break_at_whitespace(rows@, first_row_indentation)) by {
                reveal(rows_break_at_whitespace);
            }
        }
        while paragraph_start < n
            invariant
                self.wf(),
                hh == self.spec_row_height(),
                h == hh,
                0 < h <= MAX_SCALE,
                chars@ == text@,
                n == text@.len(),
                n <= MAX_TEXT_CHARS,
                0 <= first_row_indentation <= MAX_INDENT,
                0 <= paragraph_start <= n + 1,
                (paragraph_start == 0) <==> (rows@.len() == 0),
                rows@.len() == 0 ==> cursor_y == 0,
                rows@.len() <= paragraph_start,
                paragraph_start <= n ==> rows_text(rows@) == text@.take(paragraph_start as int),
                paragraph_start == n + 1 ==> rows_text(rows@) == text@ && n > 0 && text@[n - 1]
                    != '\n',
                rows@.len() > 0 && paragraph_start <= n ==> text@[paragraph_start - 1] == '\n'
                    && rows@.last().ends_with_newline == true,
                forall|k: int|
                    0 <= k < rows@.len() ==> galley_row_ok(#[trigger] rows@[k], hh, max_width),
                rows@.len() > 0 ==> rows@[0].y_min == 0 && rows@[0].x_offsets@[0]
                    == first_row_indentation,
                forall|k: int| 1 <= k < rows@.len() ==> (#[trigger] rows@[k]).x_offsets@[0] == 0,
                rows_newline_free(rows@),
                rows_stacked(rows@, hh),
                rows_break_at_whitespace(rows@, first_row_indentation),
                rows@.len() > 0 ==> cursor_y == rows@.last().y_max
                    + crate::units::paragraph_gap_spec(hh),
                paragraph_start == n + 1 ==> rows@.last().chars@.len() >= 1,
                0 <= cursor_y,
                cursor_y <= (paragraph_start + rows@.len() + 1) * (2 * ((MAX_SCALE as int) + 32)),
            decreases n + 1 - paragraph_start,
        {
            let ghost ps0 = paragraph_start as int;
            let ghost rows0 = rows@;
            let ghost cy0 = cursor_y as int;
            let mut paragraph_end: usize = paragraph_start;
            while paragraph_end < n && *slice_index_get(chars.as_slice(), paragraph_end) != '\n'
                invariant
                    paragraph_start <= paragraph_end <= n,
                    n == chars@.len(),
                    chars@ == text@,
                    forall|g: int| paragraph_start <= g < paragraph_end ==> text@[g] != '\n',
                decreases n - paragraph_end,
            {
                paragraph_end += 1;
            }
            let has_newline = paragraph_end < n;
            proof {
                if has_newline {
                    assert(text@[paragraph_end as int] == '\n');
                }
            }
            let par = vstd::slice::slice_subrange(
                chars.as_slice(),
                paragraph_start,
                paragraph_end,
            );
            let line_indentation: i64 = if rows.len() == 0 {
                first_row_indentation
            } else {
                0
            };
            let mut paragraph_rows = self.layout_paragraph_max_width(
                par,
                line_indentation,
                max_width,
            );
            let ghost pr0 = paragraph_rows@;
            proof {
                lemma_rows_ok_facts(pr0, hh, max_width, line_indentation);
            }
            if has_newline {
                mark_last_ends_with_newline(&mut paragraph_rows);
            }
            let ghost pr1 = paragraph_rows@;
            proof {
                lemma_row_obeys_width_same(pr1.last(), pr0.last(), max_width);
                assert forall|q: int| 0 <= q < pr1.len() implies (#[trigger] pr1[q]).wf()
                    && pr1[q].y_max == pr1[q].y_min + hh && 0 <= pr1[q].y_min && pr1[q].y_max <= (q
                    + 1) * ((MAX_SCALE as int) + 32) && pr1[q].y_max <= 0x40_0000_0000_0000
                    && row_obeys_width(pr1[q], max_width) && pr1[q].chars@ == pr0[q].chars@
                    && pr1[q].y_min == pr0[q].y_min && pr1[q].y_max == pr0[q].y_max
                    && pr1[q].x_offsets@ == pr0[q].x_offsets@ by {
                    if q < pr1.len() - 1 {
                        assert(pr1[q] == pr0[q]);
                    } else {
                        assert(pr0[q] == pr0.last());
                    }
                    vstd::arithmetic::mul::lemma_mul_inequality(
                        q + 1,
                        (MAX_TEXT_CHARS + 1) as int,
                        (MAX_SCALE as int) + 32,
                    );
                }
                vstd::arithmetic::mul::lemma_mul_inequality(
                    pr1.len() as int,
                    (MAX_TEXT_CHARS + 1) as int,
                    (MAX_SCALE as int) + 32,
                );
                vstd::arithmetic::mul::lemma_mul_inequality(
                    (paragraph_start + rows@.len() + 1) as int,
                    (2 * MAX_TEXT_CHARS + 2) as int,
                    2 * ((MAX_SCALE as int) + 32),
                );
            }
            let paragraph_rows = shift_rows_y(paragraph_rows, cursor_y);
            let ghost pr2 = paragraph_rows@;
            let last_idx = paragraph_rows.len() - 1;
            let last_y_max = row_y_max_at(&paragraph_rows, last_idx);
            let gap = crate::units::paragraph_gap_su(h);
            cursor_y = last_y_max + gap;
            append_rows(&mut rows, paragraph_rows);
            paragraph_start = paragraph_end + 1;
            proof {
                let plen = paragraph_end as int - ps0;
                let prn = pr2.len();
                assert(prn == pr0.len());
                // the appended rows keep every per-row guarantee
                assert forall|k: int| 0 <= k < rows@.len() implies galley_row_ok(
                    #[trigger] rows@[k],
                    hh,
                    max_width,
                ) by {
                    if k < rows0.len() {
                        assert(rows@[k] == rows0[k]);
                    } else {
                        let q = k - rows0.len();
                        assert(rows@[k] == pr2[q]);
                        lemma_row_obeys_width_same(pr2[q], pr1[q], max_width);
                    }
                }
                // the reconstructed text grows by this paragraph
                lemma_rows_text_concat(rows0, pr2);
                lemma_rows_text_congruence(pr2, pr1);
                if has_newline {
                    assert(rows_text(pr1) == text@.subrange(ps0, paragraph_end as int) + seq![
                        '\n',
                    ]);
                    assert(text@.take(paragraph_start as int) =~= text@.take(ps0) + text@.subrange(
                        ps0,
                        paragraph_end as int,
                    ) + seq!['\n']);
                    assert(rows_text(rows@) =~= text@.take(paragraph_start as int));
                } else {
                    assert(rows_text(pr1) == text@.subrange(ps0, paragraph_end as int));
                    assert(text@.take(n as int) =~= text@.take(ps0) + text@.subrange(
                        ps0,
                        n as int,
                    ));
                    assert(rows_text(rows@) =~= text@.take(n as int));
                    assert(text@.take(n as int) =~= text@);
                    assert(text@[n - 1] != '\n');
                }
                // the first row of the whole layout keeps its indentation
                if rows0.len() == 0 {
                    assert(rows@[0] == pr2[0]);
                    assert(pr2[0].y_min == pr1[0].y_min + cy0);
                    assert(pr1[0].x_offsets@[0] == first_row_indentation);
                }
                // the last appended row carries the paragraph's line break
                assert(rows@.last() == pr2[prn - 1]);
                // newline freedom, stacking, break placement and row starts
                assert forall|q: int|
                    0 <= q < pr1.len() - 1 implies (#[trigger] pr1[q]).ends_with_newline
                    == pr0[q].ends_with_newline by {
                    assert(pr1[q] == pr0[q]);
                }
                lemma_paragraph_transfer(
                    rows0,
                    pr0,
                    pr1,
                    pr2,
                    rows@,
                    hh,
                    cy0,
                    line_indentation,
                    first_row_indentation,
                );
                // the cursor rests one gap below the new last row
                assert(cursor_y == rows@.last().y_max + crate::units::paragraph_gap_spec(hh));
                if !has_newline {
                    assert(pr0.last().chars@.len() >= 1);
                    assert(rows@.last().chars@.len() >= 1);
                }
                // the vertical cursor stays within its budget
                let s32 = (MAX_SCALE as int) + 32;
                assert(pr1[prn - 1].y_max <= prn * s32);
                assert(cursor_y as int <= cy0 + prn * s32 + s32);
                assert(cursor_y as int <= ((paragraph_start + rows@.len() + 1) as int) * (2 * s32))
                    by (nonlinear_arith)
                    requires
                        cursor_y as int <= cy0 + prn * s32 + s32,
                        cy0 <= ((ps0 + rows0.len() + 1) as int) * (2 * s32),
                        paragraph_start as int == ps0 + plen + 1,
                        rows@.len() == rows0.len() + prn,
                        prn >= 1,
                        plen >= 0,
                        s32 > 0,
                        ps0 >= 0,
                        rows0.len() >= 0,
                        cursor_y as int >= 0,
                ;
            }
        }
        if n == 0 || is_newline_at(&chars, n) {
            proof {
                vstd::arithmetic::mul::lemma_mul_inequality(
                    (paragraph_start + rows@.len() + 1) as int,
                    (2 * MAX_TEXT_CHARS + 2) as int,
                    2 * ((MAX_SCALE as int) + 32),
                );
            }
            let ghost rows0 = rows@;
            let mut xo: Vec<i64> = Vec::new();
            xo.push(0);
            let blank = Row {
                x_offsets: xo,
                y_min: cursor_y,
                y_max: cursor_y + h,
                ends_with_newline: false,
                chars: Ghost(Seq::empty()),
            };
            let ghost blank_g = blank;
            rows.push(blank);
            proof {
                lemma_rows_text_push(rows0, blank_g);
                lemma_newline_free_push(rows0, blank_g);
                lemma_break_ws_push_after_newline(rows0, blank_g, first_row_indentation);
                assert(rows_stacked(seq![blank_g], hh)) by {
                    reveal(rows_stacked);
                }
                assert(rows@ =~= rows0 + seq![blank_g]);
                if rows0.len() > 0 {
                    assert(rows0.last().ends_with_newline);
                    assert(blank_g.y_min == rows0.last().y_max + crate::units::paragraph_gap_spec(
                        hh,
                    ));
                }
                lemma_stacked_concat(rows0, seq![blank_g], hh);
                assert(rows_stacked(rows@, hh));
                assert forall|k: int| 1 <= k < rows@.len() implies (
                #[trigger] rows@[k]).x_offsets@[0] == 0 by {
                    if k < rows0.len() {
                        assert(rows@[k] == rows0[k]);
                    } else {
                        assert(rows@[k] == blank_g);
                    }
                }
                if n == 0 {
                    assert(rows0.len() == 0);
                    assert(rows_text(rows0) == Seq::<char>::empty());
                    assert(rows_text(rows@) =~= text@);
                } else {
                    assert(paragraph_start == n);
                    assert(text@.take(n as int) =~= text@);
                    assert(rows_text(rows@) =~= text@);
                }
                assert(row_obeys_width(blank_g, max_width)) by {
                    reveal(row_obeys_width);
                }
                assert(blank_g.x_offsets@ =~= seq![0i64]);
                assert forall|k: int| 0 <= k < rows@.len() implies galley_row_ok(
                    #[trigger] rows@[k],
                    hh,
                    max_width,
                ) by {
                    if k < rows0.len() {
                        assert(rows@[k] == rows0[k]);
                    }
                }
            }
        } else {
            proof {
                assert(paragraph_start == n + 1);
            }
        }
        let nr = rows.len();
        let mut widest: i64 = 0;
        let mut k: usize = 0;
        proof {
            assert(rows@.take(0) =~= Seq::<Row>::empty());
        }
        while k < nr
            invariant
                0 <= k <= nr,
                nr == rows@.len(),
                forall|q: int|
                    0 <= q < rows@.len() ==> galley_row_ok(#[trigger] rows@[q], hh, max_width),
                widest == spec_widest(rows@.take(k as int)),
            decreases nr - k,
        {
            let m = row_max_x_at(&rows, k);
            if m > widest {
                widest = m;
            }
            proof {
                assert(rows@.take(k + 1 as int).drop_last() =~= rows@.take(k as int));
                assert(rows@.take(k + 1 as int).last() == rows@[k as int]);
            }
            k += 1;
        }
        proof {
            assert(rows@.take(nr as int) =~= rows@);
        }
        let bottom = row_y_max_at(&rows, nr - 1);
        let size = Vec2 { x: widest, y: bottom };
        Galley { text, rows, size }
    }

    /// As above, with no first-row indentation.
    pub fn layout_multiline(&self, text: String, max_width_in_subunits: i64) -> (galley: Galley)
        requires
            self.wf(),
            text@.len() <= MAX_TEXT_CHARS,
        ensures
            galley.wf(),
            galley.text == text,
            galley.rows@.len() >= 1,
            rows_text(galley.rows@) == text@,
            forall|k: int|
                0 <= k < galley.rows@.len() ==> galley_row_ok(
                    #[trigger] galley.rows@[k],
                    self.spec_row_height(),
                    max_width_in_subunits,
                ),
            galley.rows@[0].y_min == 0,
            text@.len() > 0 ==> galley.rows@[0].x_offsets@[0] == 0,
            text@.len() == 0 ==> galley.rows@.len() == 1 && galley.rows@[0].chars@.len() == 0
                && galley.rows@[0].x_offsets@ == seq![0i64] && galley.rows@[0].y_max
                == self.spec_row_height() && galley.rows@[0].ends_with_newline == false,
            text@.len() > 0 && text@.last() == '\n' ==> galley.rows@.len() >= 2
                && galley.rows@.last().chars@.len() == 0 && galley.rows@.last().x_offsets@ == seq![
                0i64,
            ] && galley.rows@.last().ends_with_newline == false && galley.rows@[galley.rows@.len()
                - 2].ends_with_newline == true,
            forall|k: int| 1 <= k < galley.rows@.len() ==> (#[trigger] galley.rows@[k]).x_offsets@[0]
                == 0,
            rows_newline_free(galley.rows@),
            rows_stacked(galley.rows@, self.spec_row_height()),
            rows_break_at_whitespace(galley.rows@, 0),
            text@.len() > 0 && text@.last() != '\n' ==> galley.rows@.last().chars@.len() >= 1,
    {
        self.layout_multiline_with_indentation_and_max_width(text, 0, max_width_in_subunits)
    }
}

/// Read one character of a slice.
fn slice_index_get(s: &[char], i: usize) -> (c: &char)
    requires
        0 <= i < s@.len(),
    ensures
        *c == s@[i as int],
{
    vstd::slice::slice_index_get(s, i)
}

/// Whether the last character is a newline.
fn is_newline_at(chars: &Vec<char>, n: usize) -> (r: bool)
    requires
        n >= 1,
        n == chars@.len(),
    ensures
        r == (chars@[n - 1] == '\n'),
{
    chars[n - 1] == '\n'
}

/// The bottom of row `k`.
fn row_y_max_at(rows: &Vec<Row>, k: usize) -> (y: i64)
    requires
        k < rows@.len(),
    ensures
        y == rows@[k as int].y_max,
{
    let r: &Row = &rows[k];
    r.y_max
}

/// The right edge of row `k`.
fn row_max_x_at(rows: &Vec<Row>, k: usize) -> (x: i64)
    requires
        k < rows@.len(),
        rows@[k as int].x_offsets@.len() >= 1,
    ensures
        x == rows@[k as int].spec_max_x(),
{
    let r: &Row = &rows[k];
    r.max_x()
}

/// No row span carries a newline character: explicit line breaks are
/// recorded in `ends_with_newline`, never laid out as row content.
#[verifier::opaque]
pub open spec fn rows_newline_free(rows: Seq<Row>) -> bool {
    forall|k: int, p: int|
        #![trigger rows[k].chars@[p]]
        0 <= k < rows.len() && 0 <= p < rows[k].chars@.len() ==> rows[k].chars@[p] != '\n'
}

/// Rows stack top to bottom: each row sits one pixel-rounded row height
/// below the previous row of its paragraph, and after a row that ends at an
/// explicit newline the next row starts one inter-paragraph gap below that
/// row's bottom.  The appended trailing blank row follows the gap rule too.
#[verifier::opaque]
pub open spec fn rows_stacked(rows: Seq<Row>, h: int) -> bool {
    forall|k: int|
        #![trigger rows[k].y_min]
        0 <= k < rows.len() - 1 ==> {
            if rows[k].ends_with_newline {
                rows[k + 1].y_min == rows[k].y_max + crate::units::paragraph_gap_spec(h)
            } else {
                rows[k + 1].y_min == rows[k].y_min + round_to_pixel_spec(h)
            }
        }
}

/// A row ended by the wrap itself — not by an explicit newline, and not the
/// final row of its block — ends at a breakable whitespace character
/// (trailing whitespace stays on the broken row), unless it is the single
/// indentation-only blank first row, which can exist only when a positive
/// first-row indentation was requested.
#[verifier::opaque]
pub open spec fn rows_break_at_whitespace(rows: Seq<Row>, first_indent: i64) -> bool {
    forall|k: int|
        #![trigger rows[k].chars]
        0 <= k < rows.len() - 1 && !rows[k].ends_with_newline ==> {
            ||| (rows[k].chars@.len() > 0 && spec_is_breakable(rows[k].chars@.last()))
            ||| (k == 0 && rows[k].chars@.len() == 0 && first_indent > 0)
        }
}

/// The same, asked of every row: what the wrap loop maintains before the
/// final flush row is appended.
#[verifier::opaque]
pub open spec fn all_rows_break_at_whitespace(rows: Seq<Row>, first_indent: i64) -> bool {
    forall|k: int|
        #![trigger rows[k].chars]
        0 <= k < rows.len() ==> {
            ||| (rows[k].chars@.len() > 0 && spec_is_breakable(rows[k].chars@.last()))
            ||| (k == 0 && rows[k].chars@.len() == 0 && first_indent > 0)
        }
}

pub proof fn lemma_newline_free_push(rows: Seq<Row>, r: Row)
    requires
        rows_newline_free(rows),
        forall|p: int| 0 <= p < r.chars@.len() ==> r.chars@[p] != '\n',
    ensures
        rows_newline_free(rows.push(r)),
{
    reveal(rows_newline_free);
    let out = rows.push(r);
    assert forall|k: int, p: int|
        0 <= k < out.len() && 0 <= p < out[k].chars@.len() implies #[trigger] out[k].chars@[p]
        != '\n' by {
        if k < rows.len() {
            assert(out[k] == rows[k]);
        } else {
            assert(out[k] == r);
        }
    }
}

/// Row sequences with the same spans reconstruct the same newline freedom.
pub proof fn lemma_newline_free_congruence(a: Seq<Row>, b: Seq<Row>)
    requires
        rows_newline_free(b),
        a.len() == b.len(),
        forall|k: int| 0 <= k < a.len() ==> (#[trigger] a[k]).chars@ == b[k].chars@,
    ensures
        rows_newline_free(a),
{
    reveal(rows_newline_free);
}

pub proof fn lemma_newline_free_concat(a: Seq<Row>, b: Seq<Row>)
    requires
        rows_newline_free(a),
        rows_newline_free(b),
    ensures
        rows_newline_free(a + b),
{
    reveal(rows_newline_free);
    let out = a + b;
    assert forall|k: int, p: int|
        0 <= k < out.len() && 0 <= p < out[k].chars@.len() implies #[trigger] out[k].chars@[p]
        != '\n' by {
        if k < a.len() {
            assert(out[k] == a[k]);
        } else {
            assert(out[k] == b[k - a.len()]);
        }
    }
}

/// Every row a paragraph wrap emits keeps the stacking law: flags are all
/// false, so each pair is one pixel-rounded row height apart.
pub proof fn lemma_rows_ok_stacked(rows: Seq<Row>, h: int, max_width: i64, first_indent: i64)
    requires
        paragraph_rows_ok(rows, h, max_width, first_indent),
    ensures
        rows_stacked(rows, h),
{
    reveal(paragraph_rows_ok);
    reveal(paragraph_row_ok);
    reveal(rows_stacked);
    assert forall|k: int| 0 <= k < rows.len() - 1 implies ({
        if rows[k].ends_with_newline {
            rows[k + 1].y_min == rows[k].y_max + crate::units::paragraph_gap_spec(h)
        } else {
            rows[k + 1].y_min == rows[k].y_min + round_to_pixel_spec(h)
        }
    }) by {
        crate::units::lemma_round_shift(rows[k].y_min as int, h);
    }
}

/// Stacking only reads vertical extents and flags of all but the last row,
/// so it survives marking the last row and any uniform vertical shift.
pub proof fn lemma_stacked_congruence(a: Seq<Row>, b: Seq<Row>, h: int, dy: int)
    requires
        rows_stacked(b, h),
        a.len() == b.len(),
        forall|k: int|
            0 <= k < a.len() ==> (#[trigger] a[k]).y_min == b[k].y_min + dy && a[k].y_max
                == b[k].y_max + dy,
        forall|k: int|
            0 <= k < a.len() - 1 ==> (#[trigger] a[k]).ends_with_newline
                == b[k].ends_with_newline,
    ensures
        rows_stacked(a, h),
{
    reveal(rows_stacked);
}

pub proof fn lemma_stacked_concat(a: Seq<Row>, b: Seq<Row>, h: int)
    requires
        rows_stacked(a, h),
        rows_stacked(b, h),
        a.len() > 0 && b.len() > 0 ==> ({
            if a.last().ends_with_newline {
                b[0].y_min == a.last().y_max + crate::units::paragraph_gap_spec(h)
            } else {
                b[0].y_min == a.last().y_min + round_to_pixel_spec(h)
            }
        }),
    ensures
        rows_stacked(a + b, h),
{
    reveal(rows_stacked);
    let out = a + b;
    assert forall|k: int| 0 <= k < out.len() - 1 implies ({
        if out[k].ends_with_newline {
            out[k + 1].y_min == out[k].y_max + crate::units::paragraph_gap_spec(h)
        } else {
            out[k + 1].y_min == out[k].y_min + round_to_pixel_spec(h)
        }
    }) by {
        if k < a.len() - 1 {
            assert(out[k] == a[k]);
            assert(out[k + 1] == a[k + 1]);
            assert(a[k].y_min == out[k].y_min);
        } else if k == a.len() - 1 {
            assert(out[k] == a.last());
            assert(out[k + 1] == b[0]);
        } else {
            assert(out[k] == b[k - a.len()]);
            assert(out[k + 1] == b[k + 1 - a.len()]);
            assert(b[k - a.len()].y_min == out[k].y_min);
        }
    }
}

pub proof fn lemma_all_break_push(rows: Seq<Row>, r: Row, first_indent: i64)
    requires
        all_rows_break_at_whitespace(rows, first_indent),
        (r.chars@.len() > 0 && spec_is_breakable(r.chars@.last())) || (rows.len() == 0
            && r.chars@.len() == 0 && first_indent > 0),
    ensures
        all_rows_break_at_whitespace(rows.push(r), first_indent),
{
    reveal(all_rows_break_at_whitespace);
    let out = rows.push(r);
    assert forall|k: int| 0 <= k < out.len() implies ({
        ||| ((#[trigger] out[k].chars)@.len() > 0 && spec_is_breakable(out[k].chars@.last()))
        ||| (k == 0 && out[k].chars@.len() == 0 && first_indent > 0)
    }) by {
        if k < rows.len() {
            assert(out[k] == rows[k]);
            assert(rows[k].chars == rows[k].chars);
        } else {
            assert(out[k] == r);
        }
    }
}

/// Appending one final row — exempt as the last of its block — preserves
/// the break-at-whitespace law.
pub proof fn lemma_break_ws_from_all(rows: Seq<Row>, last: Option<Row>, first_indent: i64)
    requires
        all_rows_break_at_whitespace(rows, first_indent),
    ensures
        rows_break_at_whitespace(rows, first_indent),
        last matches Some(r) ==> rows_break_at_whitespace(rows.push(r), first_indent),
{
    reveal(all_rows_break_at_whitespace);
    reveal(rows_break_at_whitespace);
    if let Some(r) = last {
        let out = rows.push(r);
        assert forall|k: int|
            0 <= k < out.len() - 1 && !out[k].ends_with_newline implies ({
            ||| ((#[trigger] out[k].chars)@.len() > 0 && spec_is_breakable(out[k].chars@.last()))
            ||| (k == 0 && out[k].chars@.len() == 0 && first_indent > 0)
        }) by {
            assert(out[k] == rows[k]);
            assert(rows[k].chars == rows[k].chars);
        }
    }
}

/// Breaking reads spans and all but the last flag, so it survives marking
/// the last row and vertical shifts.
pub proof fn lemma_break_ws_congruence(a: Seq<Row>, b: Seq<Row>, first_indent: i64)
    requires
        rows_break_at_whitespace(b, first_indent),
        a.len() == b.len(),
        forall|k: int| 0 <= k < a.len() ==> (#[trigger] a[k]).chars@ == b[k].chars@,
        forall|k: int|
            0 <= k < a.len() - 1 ==> (#[trigger] a[k]).ends_with_newline
                == b[k].ends_with_newline,
    ensures
        rows_break_at_whitespace(a, first_indent),
{
    reveal(rows_break_at_whitespace);
    assert forall|k: int|
        0 <= k < a.len() - 1 && !a[k].ends_with_newline implies ({
        ||| ((#[trigger] a[k].chars)@.len() > 0 && spec_is_breakable(a[k].chars@.last()))
        ||| (k == 0 && a[k].chars@.len() == 0 && first_indent > 0)
    }) by {
        assert(b[k].chars == b[k].chars);
    }
}

/// Joining two blocks keeps the break-at-whitespace law when the first
/// block ends at an explicit newline (its last row is exempt through its
/// flag) and the second block can start blank only where it starts the
/// whole layout.
pub proof fn lemma_break_ws_concat(a: Seq<Row>, b: Seq<Row>, first_indent: i64, b_indent: i64)
    requires
        rows_break_at_whitespace(a, first_indent),
        rows_break_at_whitespace(b, b_indent),
        a.len() > 0 ==> a.last().ends_with_newline,
        a.len() == 0 ==> b_indent == first_indent,
        a.len() > 0 ==> b_indent <= 0,
    ensures
        rows_break_at_whitespace(a + b, first_indent),
{
    reveal(rows_break_at_whitespace);
    let out = a + b;
    assert forall|k: int|
        0 <= k < out.len() - 1 && !out[k].ends_with_newline implies ({
        ||| ((#[trigger] out[k].chars)@.len() > 0 && spec_is_breakable(out[k].chars@.last()))
        ||| (k == 0 && out[k].chars@.len() == 0 && first_indent > 0)
    }) by {
        if k < a.len() - 1 {
            assert(out[k] == a[k]);
            assert(a[k].chars == a[k].chars);
        } else if k == a.len() - 1 {
            assert(out[k] == a.last());
        } else {
            let q = k - a.len();
            assert(out[k] == b[q]);
            assert(b[q].chars == b[q].chars);
            if q < b.len() - 1 && !b[q].ends_with_newline {
                if b[q].chars@.len() == 0 && q == 0 {
                    assert(b_indent > 0);
                    assert(a.len() == 0);
                }
            }
        }
    }
}

/// The single row an empty paragraph yields: only the indentation offset.
fn indentation_only_rows(first_row_indentation: i64, h: i64, max_width: i64) -> (out: Vec<Row>)
    requires
        0 < h <= MAX_SCALE,
    ensures
        out@.len() == 1,
        out@[0].chars@.len() == 0,
        out@[0].x_offsets@ =~= seq![first_row_indentation],
        rows_text(out@) == Seq::<char>::empty(),
        paragraph_rows_ok(out@, h as int, max_width, first_row_indentation),
        rows_newline_free(out@),
        rows_stacked(out@, h as int),
        rows_break_at_whitespace(out@, first_row_indentation),
{
    let mut x_offsets: Vec<i64> = Vec::new();
    x_offsets.push(first_row_indentation);
    let row = Row {
        x_offsets,
        y_min: 0,
        y_max: h,
        ends_with_newline: false,
        chars: Ghost(Seq::empty()),
    };
    let ghost blankrow = row;
    let mut out: Vec<Row> = Vec::new();
    out.push(row);
    proof {
        assert(row_obeys_width(blankrow, max_width)) by {
            reveal(row_obeys_width);
        }
        assert(paragraph_row_ok(blankrow, h as int, max_width)) by {
            reveal(paragraph_row_ok);
        }
        assert(paragraph_rows_ok(Seq::<Row>::empty(), h as int, max_width, first_row_indentation))
            by {
            reveal(paragraph_rows_ok);
        }
        assert(out@ =~= Seq::<Row>::empty().push(blankrow));
        lemma_rows_text_push(Seq::empty(), blankrow);
        assert(rows_text(Seq::<Row>::empty()) == Seq::<char>::empty());
        assert(rows_text(out@) =~= Seq::<char>::empty());
        lemma_rows_ok_push(Seq::empty(), blankrow, h as int, max_width, first_row_indentation, 0);
        lemma_rows_ok_stacked(out@, h as int, max_width, first_row_indentation);
        assert(rows_newline_free(out@)) by {
            reveal(rows_newline_free);
        }
        assert(rows_break_at_whitespace(out@, first_row_indentation)) by {
            reveal(rows_break_at_whitespace);
        }
    }
    out
}

/// Appending one more row after a block whose last row ends at an explicit
/// newline keeps the break-at-whitespace law: the new row is final, and the
/// old last row is exempt through its flag.
pub proof fn lemma_break_ws_push_after_newline(rows: Seq<Row>, r: Row, first_indent: i64)
    requires
        rows_break_at_whitespace(rows, first_indent),
        rows.len() > 0 ==> rows.last().ends_with_newline,
    ensures
        rows_break_at_whitespace(rows.push(r), first_indent),
{
    reveal(rows_break_at_whitespace);
    let out = rows.push(r);
    assert forall|k: int|
        0 <= k < out.len() - 1 && !out[k].ends_with_newline implies ({
        ||| ((#[trigger] out[k].chars)@.len() > 0 && spec_is_breakable(out[k].chars@.last()))
        ||| (k == 0 && out[k].chars@.len() == 0 && first_indent > 0)
    }) by {
        assert(out[k] == rows[k]);
        assert(rows[k].chars == rows[k].chars);
        if k == rows.len() - 1 {
            assert(rows[k] == rows.last());
        }
    }
}

/// Splicing one wrapped, marked and shifted paragraph onto the galley keeps
/// newline freedom, vertical stacking, break placement and the
/// rows-after-the-first-start-at-zero rule.
proof fn lemma_paragraph_transfer(
    rows0: Seq<Row>,
    pr0: Seq<Row>,
    pr1: Seq<Row>,
    pr2: Seq<Row>,
    out: Seq<Row>,
    h: int,
    dy: int,
    line_indent: i64,
    first_indent: i64,
)
    requires
        out == rows0 + pr2,
        pr0.len() == pr1.len(),
        pr1.len() == pr2.len(),
        pr2.len() >= 1,
        forall|q: int|
            0 <= q < pr1.len() ==> (#[trigger] pr1[q]).chars@ == pr0[q].chars@ && pr1[q].x_offsets@
                == pr0[q].x_offsets@ && pr1[q].y_min == pr0[q].y_min && pr1[q].y_max
                == pr0[q].y_max,
        forall|q: int|
            0 <= q < pr1.len() - 1 ==> (#[trigger] pr1[q]).ends_with_newline
                == pr0[q].ends_with_newline,
        forall|q: int|
            0 <= q < pr2.len() ==> (#[trigger] pr2[q]).chars@ == pr1[q].chars@ && pr2[q].x_offsets@
                == pr1[q].x_offsets@ && pr2[q].ends_with_newline == pr1[q].ends_with_newline
                && pr2[q].y_min == pr1[q].y_min + dy && pr2[q].y_max == pr1[q].y_max + dy,
        rows_newline_free(pr0),
        rows_stacked(pr0, h),
        rows_break_at_whitespace(pr0, line_indent),
        pr0[0].y_min == 0,
        pr0[0].x_offsets@[0] == line_indent,
        forall|q: int| 1 <= q < pr0.len() ==> (#[trigger] pr0[q]).x_offsets@[0] == 0,
        rows_newline_free(rows0),
        rows_stacked(rows0, h),
        rows_break_at_whitespace(rows0, first_indent),
        forall|k: int| 1 <= k < rows0.len() ==> (#[trigger] rows0[k]).x_offsets@[0] == 0,
        rows0.len() > 0 ==> rows0.last().ends_with_newline && dy == rows0.last().y_max
            + crate::units::paragraph_gap_spec(h) && line_indent == 0,
        rows0.len() == 0 ==> line_indent == first_indent,
    ensures
        rows_newline_free(out),
        rows_stacked(out, h),
        rows_break_at_whitespace(out, first_indent),
        forall|k: int| 1 <= k < out.len() ==> (#[trigger] out[k]).x_offsets@[0] == 0,
{
    lemma_newline_free_congruence(pr1, pr0);
    lemma_newline_free_congruence(pr2, pr1);
    lemma_newline_free_concat(rows0, pr2);
    lemma_stacked_congruence(pr1, pr0, h, 0);
    lemma_stacked_congruence(pr2, pr1, h, dy);
    if rows0.len() > 0 {
        assert(pr2[0].y_min == pr1[0].y_min + dy);
        assert(pr1[0].y_min == 0);
    }
    lemma_stacked_concat(rows0, pr2, h);
    lemma_break_ws_congruence(pr1, pr0, line_indent);
    lemma_break_ws_congruence(pr2, pr1, line_indent);
    lemma_break_ws_concat(rows0, pr2, first_indent, line_indent);
    assert forall|k: int| 1 <= k < out.len() implies (#[trigger] out[k]).x_offsets@[0] == 0 by {
        if k < rows0.len() {
            assert(out[k] == rows0[k]);
        } else {
            let q = k - rows0.len();
            assert(out[k] == pr2[q]);
            if q == 0 {
                assert(rows0.len() >= 1);
            }
        }
    }
}

/// Between two positions of a non-decreasing offsets sequence, the earlier
/// value is no larger.
pub proof fn lemma_full_monotone(full: Seq<i64>, a: int, b: int, hi: int)
    requires
        0 <= a <= b <= hi < full.len(),
        forall|j: int| a <= j < hi ==> #[trigger] full[j] <= full[j + 1],
    ensures
        full[a] <= full[b],
    decreases b - a,
{
    if a < b {
        lemma_full_monotone(full, a + 1, b, hi);
    }
}

} // verus!
