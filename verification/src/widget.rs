//! Viewport state and the scroll-adjustment policy.
//!
//! The viewport remembers the last rendered rectangle — top row, top column,
//! width and height, each 16 bits — packed into one 64-bit word so a reader
//! takes all four fields as one consistent snapshot. `next_scroll_top`
//! computes the smallest change of a top offset that keeps the cursor
//! visible.

use crate::highlight::{
    char_count, copy_range, locate_char, nth_start, next_start, span_models, Span, SpanModel,
};
use crate::style::{patch_of, patch_style};
use crate::util::{n_digits, num_digits, padded_number, push_decimal, push_spaces};
use vstd::prelude::*;

verus! {

use ratatui::style::Style;

pub open spec fn row_of(u: u64) -> u16 {
    (u >> 16) as u16
}

pub open spec fn col_of(u: u64) -> u16 {
    u as u16
}

pub open spec fn width_of(u: u64) -> u16 {
    (u >> 48) as u16
}

pub open spec fn height_of(u: u64) -> u16 {
    (u >> 32) as u16
}

/// The packed word holding the four 16-bit fields.
pub open spec fn pack(row: u16, col: u16, width: u16, height: u16) -> u64 {
    ((width as u64) << 48) | ((height as u64) << 32) | ((row as u64) << 16) | (col as u64)
}

/// Packing the four fields and decoding them again gives the fields back:
/// the stored word loses nothing for any representable quadruple.
pub proof fn lemma_pack_unpack(row: u16, col: u16, width: u16, height: u16)
    by (bit_vector)
    ensures
        row_of(pack(row, col, width, height)) == row,
        col_of(pack(row, col, width, height)) == col,
        width_of(pack(row, col, width, height)) == width,
        height_of(pack(row, col, width, height)) == height,
{
}

/// Replacing row and column in a packed word keeps width and height.
proof fn lemma_scroll_pack(u: u64, row: u16, col: u16)
    by (bit_vector)
    ensures
        row_of((u & 0xffff_ffff_0000_0000) | ((row as u64) << 16) | (col as u64)) == row,
        col_of((u & 0xffff_ffff_0000_0000) | ((row as u64) << 16) | (col as u64)) == col,
        width_of((u & 0xffff_ffff_0000_0000) | ((row as u64) << 16) | (col as u64)) == width_of(u),
        height_of((u & 0xffff_ffff_0000_0000) | ((row as u64) << 16) | (col as u64)) == height_of(u),
{
}

/// The last rendered visible rectangle, packed into one word: a writer
/// overwrites the whole word per frame, a reader decodes one whole word, so
/// no torn mix of the four fields can be observed.
#[derive(Clone)]
pub struct Viewport(u64);

impl Default for Viewport {
    fn default() -> (r: Self)
        ensures
            r.packed() == 0,
    {
        Viewport(0)
    }
}

impl Viewport {
    pub closed spec fn packed(self) -> u64 {
        self.0
    }

    pub open spec fn row_spec(self) -> u16 {
        row_of(self.packed())
    }

    pub open spec fn col_spec(self) -> u16 {
        col_of(self.packed())
    }

    pub open spec fn width_spec(self) -> u16 {
        width_of(self.packed())
    }

    pub open spec fn height_spec(self) -> u16 {
        height_of(self.packed())
    }

    /// The scroll origin: (top row, top column).
    pub fn scroll_top(&self) -> (r: (u16, u16))
        ensures
            r == (self.row_spec(), self.col_spec()),
    {
        let u = self.0;
        ((u >> 16) as u16, u as u16)
    }

    /// The whole rectangle: (top row, top column, width, height).
    pub fn rect(&self) -> (r: (u16, u16, u16, u16))
        ensures
            r == (self.row_spec(), self.col_spec(), self.width_spec(), self.height_spec()),
    {
        let u = self.0;
        let width = (u >> 48) as u16;
        let height = (u >> 32) as u16;
        let row = (u >> 16) as u16;
        let col = u as u16;
        (row, col, width, height)
    }

    /// The corners: (top row, top column, bottom row, bottom column), each
    /// bottom edge `top + length - 1` saturating, never above `top`.
    pub fn position(&self) -> (r: (u16, u16, u16, u16))
        ensures
            r.0 == self.row_spec(),
            r.1 == self.col_spec(),
            r.2 == max_u16(self.row_spec(), bottom_of(self.row_spec(), self.height_spec())),
            r.3 == max_u16(self.col_spec(), bottom_of(self.col_spec(), self.width_spec())),
    {
        let (row_top, col_top, width, height) = self.rect();
        let row_sum = if row_top <= 65535 - height {
            row_top + height
        } else {
            65535
        };
        let row_bottom = if row_sum >= 1 {
            row_sum - 1
        } else {
            0
        };
        let col_sum = if col_top <= 65535 - width {
            col_top + width
        } else {
            65535
        };
        let col_bottom = if col_sum >= 1 {
            col_sum - 1
        } else {
            0
        };
        let rb = if row_top >= row_bottom {
            row_top
        } else {
            row_bottom
        };
        let cb = if col_top >= col_bottom {
            col_top
        } else {
            col_bottom
        };
        (row_top, col_top, rb, cb)
    }

    /// Overwrites all four fields as one snapshot.
    pub fn store(&mut self, row: u16, col: u16, width: u16, height: u16)
        ensures
            final(self).packed() == pack(row, col, width, height),
            final(self).row_spec() == row,
            final(self).col_spec() == col,
            final(self).width_spec() == width,
            final(self).height_spec() == height,
    {
        let u: u64 = ((width as u64) << 48) | ((height as u64) << 32) | ((row as u64) << 16) | (
        col as u64);
        self.0 = u;
        proof {
            lemma_pack_unpack(row, col, width, height);
        }
    }

    /// Adds the signed deltas to row and column independently, saturating at
    /// the origin and at the largest field value; width and height stay.
    pub fn scroll(&mut self, rows: i16, cols: i16)
        ensures
            final(self).row_spec() == apply_scroll_spec(old(self).row_spec(), rows),
            final(self).col_spec() == apply_scroll_spec(old(self).col_spec(), cols),
            final(self).width_spec() == old(self).width_spec(),
            final(self).height_spec() == old(self).height_spec(),
    {
        let u = self.0;
        let row = apply_scroll((u >> 16) as u16, rows);
        let col = apply_scroll(u as u16, cols);
        self.0 = (u & 0xffff_ffff_0000_0000) | ((row as u64) << 16) | (col as u64);
        proof {
            lemma_scroll_pack(u, row, col);
        }
    }
}

pub open spec fn max_u16(a: u16, b: u16) -> u16 {
    if a >= b {
        a
    } else {
        b
    }
}

/// `top + length - 1`, saturating at both ends of the 16-bit range.
pub open spec fn bottom_of(top: u16, length: u16) -> u16 {
    let s: int = if top + length <= 65535 {
        top + length
    } else {
        65535
    };
    if s >= 1 {
        (s - 1) as u16
    } else {
        0u16
    }
}

/// A scroll position moved by a signed delta, saturating at 0 and 65535.
pub open spec fn apply_scroll_spec(pos: u16, delta: i16) -> u16 {
    if pos + delta > 65535 {
        65535u16
    } else if pos + delta < 0 {
        0u16
    } else {
        (pos + delta) as u16
    }
}

fn apply_scroll(pos: u16, delta: i16) -> (r: u16)
    ensures
        r == apply_scroll_spec(pos, delta),
{
    if delta >= 0 {
        let d = delta as u16;
        if pos <= 65535 - d {
            pos + d
        } else {
            65535
        }
    } else {
        let d = (-(delta as i32)) as u32;
        if pos as u32 > d {
            (pos as u32 - d) as u16
        } else {
            0
        }
    }
}

/// The smallest top offset change that keeps `cursor` visible in a window of
/// `length` cells: scroll back to the cursor, forward by the exact deficit,
/// or not at all.
pub open spec fn next_scroll_top_spec(prev_top: u16, cursor: u16, length: u16) -> int {
    if cursor < prev_top {
        cursor as int
    } else if prev_top + length <= cursor {
        cursor + 1 - length
    } else {
        prev_top as int
    }
}

pub fn next_scroll_top(prev_top: u16, cursor: u16, length: u16) -> (r: u16)
    requires
        prev_top + length <= 65535,
        length == 0 ==> cursor < 65535,
    ensures
        r == next_scroll_top_spec(prev_top, cursor, length),
{
    if cursor < prev_top {
        cursor
    } else if prev_top + length <= cursor {
        cursor - length + 1
    } else {
        prev_top
    }
}

/// Once the cursor is visible the adjustment keeps the top unchanged, so
/// repeating it with the same inputs returns the same top.
pub proof fn lemma_scroll_adjust_idempotent(prev_top: u16, cursor: u16, length: u16)
    requires
        prev_top <= cursor < prev_top + length,
    ensures
        next_scroll_top_spec(prev_top, cursor, length) == prev_top,
{
}

/// A render pass that finds the cursor already inside the visible rectangle
/// computes the same scroll origin it started from, on both axes — so
/// repeated passes with the same cursor and rectangle never move the view.
pub proof fn lemma_render_top_fixed(
    top_row: u16,
    top_col: u16,
    cursor_row: u16,
    cursor_col: u16,
    width: u16,
    height: u16,
)
    requires
        top_row <= cursor_row < top_row + height,
        top_col <= cursor_col < top_col + width,
    ensures
        next_scroll_top_spec(top_row, cursor_row, height) == top_row,
        next_scroll_top_spec(top_col, cursor_col, width) == top_col,
{
}

/// One adjustment reveals the cursor; a second one with the same cursor and
/// length then moves nothing.
pub proof fn lemma_scroll_adjust_stable(prev_top: u16, cursor: u16, length: u16)
    requires
        length >= 1,
    ensures
        0 <= next_scroll_top_spec(prev_top, cursor, length) <= 65535,
        next_scroll_top_spec(
            next_scroll_top_spec(prev_top, cursor, length) as u16,
            cursor,
            length,
        ) == next_scroll_top_spec(prev_top, cursor, length),
{
}

/// The values of a sequence of styled lines.
pub open spec fn lines_models(s: Seq<Vec<Span>>) -> Seq<Seq<SpanModel>> {
    s.map_values(|v: Vec<Span>| span_models(v@))
}

/// A span split at the character `[cs, ce)` of its text: the bytes before,
/// the character restyled with the cursor style patched over the span's own,
/// and the bytes after; empty pieces are dropped.
pub open spec fn split_at_char(sp: SpanModel, cs: int, ce: int, cstyle: Style) -> Seq<SpanModel> {
    (if cs > 0 {
        seq![SpanModel { content: sp.content.subrange(0, cs), style: sp.style }]
    } else {
        Seq::empty()
    }) + seq![
        SpanModel { content: sp.content.subrange(cs, ce), style: patch_of(sp.style, cstyle) },
    ] + (if ce < sp.content.len() {
        seq![
            SpanModel { content: sp.content.subrange(ce, sp.content.len() as int), style: sp.style },
        ]
    } else {
        Seq::empty()
    })
}

/// Exactly the character at column `col` of the concatenated span texts is
/// restyled to the cursor style, split out at its exact byte range; every
/// other byte keeps its span's style. A column past the last character
/// appends the synthetic single-space cursor span instead.
pub open spec fn patch_cursor(spans: Seq<SpanModel>, col: int, cstyle: Style) -> Seq<SpanModel>
    decreases spans.len(),
{
    if spans.len() == 0 {
        seq![SpanModel { content: seq![32u8], style: cstyle }]
    } else {
        match nth_start(spans[0].content, 0, col) {
            Some(cs) => split_at_char(
                spans[0],
                cs,
                next_start(spans[0].content, cs + 1),
                cstyle,
            ) + spans.drop_first(),
            None => seq![spans[0]] + patch_cursor(
                spans.drop_first(),
                col - char_count(spans[0].content),
                cstyle,
            ),
        }
    }
}

/// The visible slice of styled lines, each prefixed with its line-number
/// span when a line-number style is set.
pub open spec fn visible_lines(
    models: Seq<Seq<SpanModel>>,
    top_row: int,
    height: int,
    num_style: Option<Style>,
) -> Seq<Seq<SpanModel>> {
    let bottom = if top_row + height <= models.len() {
        top_row + height
    } else {
        models.len() as int
    };
    Seq::new(
        (bottom - top_row) as nat,
        |i: int|
            match num_style {
                Some(st) => seq![
                    SpanModel {
                        content: padded_number((top_row + i + 1) as nat, n_digits(models.len())),
                        style: st,
                    },
                ] + models[top_row + i],
                None => models[top_row + i],
            },
    )
}

/// The block of styled lines for one draw cycle: the visible slice with
/// line-number prefixes, the span under the cursor patched to the cursor
/// style (the cursor column counted after the line-number prefix).
pub open spec fn text_spec(
    models: Seq<Seq<SpanModel>>,
    top_row: int,
    height: int,
    num_style: Option<Style>,
    cursor_row: int,
    cursor_col: int,
    cursor_style: Style,
) -> Seq<Seq<SpanModel>> {
    let base = visible_lines(models, top_row, height, num_style);
    let shifted = match num_style {
        Some(_) => cursor_col + n_digits(models.len()) + 1,
        None => cursor_col,
    };
    let v = cursor_row - top_row;
    let roi = if v < 0 {
        0int
    } else if v > models.len() - 1 {
        models.len() - 1
    } else {
        v
    };
    if base.len() == 0 || roi == base.len() {
        base
    } else {
        base.update(roi, patch_cursor(base[roi], shifted, cursor_style))
    }
}

#[verifier::loop_isolation(false)]
fn patch_row(row: Vec<Span>, col: usize, cstyle: Style) -> (r: Vec<Span>)
    ensures
        span_models(r@) == patch_cursor(span_models(row@), col as int, cstyle),
{
    let ghost models = span_models(row@);
    let mut out: Vec<Span> = Vec::new();
    let mut rem: usize = col;
    let mut found: bool = false;
    let mut j: usize = 0;
    proof {
        assert(models.subrange(0, models.len() as int) =~= models);
        assert(span_models(out@) =~= Seq::<SpanModel>::empty());
    }
    while j < row.len()
        invariant
            j <= row@.len(),
            !found ==> patch_cursor(models, col as int, cstyle) == span_models(out@)
                + patch_cursor(models.subrange(j as int, models.len() as int), rem as int, cstyle),
            found ==> patch_cursor(models, col as int, cstyle) == span_models(out@)
                + models.subrange(j as int, models.len() as int),
        decreases row@.len() - j,
    {
        let ghost suffix = models.subrange(j as int, models.len() as int);
        proof {
            assert(suffix[0] == models[j as int]);
            assert(suffix.drop_first() =~= models.subrange(j + 1, models.len() as int));
        }
        let sp = &row[j];
        proof {
            assert(sp@ == suffix[0]);
        }
        if !found {
            let ghost out_pre = span_models(out@);
            let ghost rem0 = rem as int;
            let (hit, cs, ce, leftover) = locate_char(&sp.content, rem);
            if hit {
                let ghost pieces = split_at_char(suffix[0], cs as int, ce as int, cstyle);
                if cs > 0 {
                    let before = Span { content: copy_range(&sp.content, 0, cs), style: sp.style };
                    proof {
                        crate::highlight::lemma_span_models_push(out@, before);
                    }
                    out.push(before);
                }
                let mid = Span {
                    content: copy_range(&sp.content, cs, ce),
                    style: patch_style(sp.style, cstyle),
                };
                proof {
                    crate::highlight::lemma_span_models_push(out@, mid);
                }
                out.push(mid);
                if ce < sp.content.len() {
                    let after = Span {
                        content: copy_range(&sp.content, ce, sp.content.len()),
                        style: sp.style,
                    };
                    proof {
                        crate::highlight::lemma_span_models_push(out@, after);
                    }
                    out.push(after);
                }
                found = true;
                proof {
                    assert(patch_cursor(suffix, rem0, cstyle) == pieces + suffix.drop_first());
                    assert(span_models(out@) =~= out_pre + pieces);
                    assert(span_models(out@) + models.subrange(j + 1, models.len() as int)
                        =~= out_pre + patch_cursor(suffix, rem0, cstyle));
                }
            } else {
                let copied = sp.duplicate();
                proof {
                    crate::highlight::lemma_span_models_push(out@, copied);
                }
                out.push(copied);
                rem = leftover;
                proof {
                    assert(patch_cursor(suffix, rem0, cstyle) == seq![suffix[0]] + patch_cursor(
                        suffix.drop_first(),
                        rem0 - char_count(suffix[0].content),
                        cstyle,
                    ));
                    assert(rem as int == rem0 - char_count(suffix[0].content));
                    assert(span_models(out@) =~= out_pre.push(suffix[0]));
                    assert(span_models(out@) + patch_cursor(
                        models.subrange(j + 1, models.len() as int),
                        rem as int,
                        cstyle,
                    ) =~= out_pre + patch_cursor(suffix, rem0, cstyle));
                }
            }
        } else {
            let copied = sp.duplicate();
            proof {
                crate::highlight::lemma_span_models_push(out@, copied);
            }
            out.push(copied);
            proof {
                assert(suffix =~= seq![suffix[0]] + models.subrange(j + 1, models.len() as int));
                assert(span_models(out@) + models.subrange(j + 1, models.len() as int)
                    =~= span_models(out@).drop_last() + suffix);
            }
        }
        j = j + 1;
    }
    proof {
        assert(models.subrange(models.len() as int, models.len() as int) =~= Seq::<
            SpanModel,
        >::empty());
    }
    if !found {
        let mut c: Vec<u8> = Vec::new();
        c.push(32u8);
        proof {
            assert(c@ =~= seq![32u8]);
        }
        let t = Span { content: c, style: cstyle };
        proof {
            crate::highlight::lemma_span_models_push(out@, t);
            assert(patch_cursor(Seq::<SpanModel>::empty(), rem as int, cstyle) =~= seq![
                SpanModel { content: seq![32u8], style: cstyle },
            ]);
        }
        out.push(t);
        proof {
            assert(span_models(out@) =~= patch_cursor(models, col as int, cstyle));
        }
    } else {
        proof {
            assert(span_models(out@) + Seq::<SpanModel>::empty() =~= span_models(out@));
        }
    }
    out
}

/// Assembles, for one draw cycle, the block of styled lines handed to the
/// painting primitive, and keeps the viewport for the next cycle.
pub struct Renderer {
    pub lines: Vec<Vec<Span>>,
    pub cursor_row: usize,
    pub cursor_col: usize,
    pub cursor_style: Style,
    pub line_number_style: Option<Style>,
    pub viewport: Viewport,
}

impl Renderer {
    pub fn new(
        lines: Vec<Vec<Span>>,
        cursor_row: usize,
        cursor_col: usize,
        cursor_style: Style,
        line_number_style: Option<Style>,
        viewport: Viewport,
    ) -> (r: Renderer)
        ensures
            r.lines@ == lines@,
            r.cursor_row == cursor_row,
            r.cursor_col == cursor_col,
            r.cursor_style == cursor_style,
            r.line_number_style == line_number_style,
            r.viewport == viewport,
    {
        Renderer { lines, cursor_row, cursor_col, cursor_style, line_number_style, viewport }
    }

    /// The visible block of styled lines starting at `top_row`: each line
    /// prefixed by its line number when a line-number style is set, and the
    /// span containing the cursor patched to the cursor style.
    #[verifier::loop_isolation(false)]
    pub fn text(&self, top_row: usize, height: usize) -> (r: Vec<Vec<Span>>)
        requires
            self.lines@.len() >= 1,
            top_row <= self.cursor_row < self.lines@.len(),
            self.cursor_row <= top_row + height,
            top_row + height <= usize::MAX,
            self.cursor_col + n_digits(self.lines@.len()) + 1 <= usize::MAX,
        ensures
            lines_models(r@) == text_spec(
                lines_models(self.lines@),
                top_row as int,
                height as int,
                self.line_number_style,
                self.cursor_row as int,
                self.cursor_col as int,
                self.cursor_style,
            ),
    {
        let ghost models = lines_models(self.lines@);
        let ghost target = text_spec(
            models,
            top_row as int,
            height as int,
            self.line_number_style,
            self.cursor_row as int,
            self.cursor_col as int,
            self.cursor_style,
        );
        let lines_len = self.lines.len();
        let lnum_len = num_digits(lines_len);
        let shifted = match self.line_number_style {
            Some(_) => self.cursor_col + lnum_len + 1,
            None => self.cursor_col,
        };
        let bottom = if top_row + height <= lines_len {
            top_row + height
        } else {
            lines_len
        };
        let mut roi = self.cursor_row - top_row;
        if roi > lines_len - 1 {
            roi = lines_len - 1;
        }
        let n_vis = bottom - top_row;
        let ghost base = visible_lines(
            models,
            top_row as int,
            height as int,
            self.line_number_style,
        );
        proof {
            assert(base.len() == n_vis);
            assert(roi <= n_vis);
        }
        let mut out: Vec<Vec<Span>> = Vec::new();
        let mut i: usize = 0;
        proof {
            assert(lines_models(out@) =~= target.subrange(0, 0));
        }
        while i < n_vis
            invariant
                i <= n_vis,
                lines_models(out@) == target.subrange(0, i as int),
            decreases n_vis - i,
        {
            let mut row: Vec<Span> = Vec::new();
            match self.line_number_style {
                Some(st) => {
                    let nd = num_digits(top_row + i + 1);
                    proof {
                        crate::util::lemma_n_digits_mono((top_row + i + 1) as nat, lines_len as nat);
                    }
                    let mut content: Vec<u8> = Vec::new();
                    push_spaces(&mut content, lnum_len - nd);
                    push_decimal(&mut content, top_row + i + 1);
                    content.push(32u8);
                    let presp = Span { content, style: st };
                    proof {
                        crate::highlight::lemma_span_models_push(row@, presp);
                        assert(presp@.content =~= padded_number(
                            (top_row + i + 1) as nat,
                            n_digits(lines_len as nat),
                        ));
                    }
                    row.push(presp);
                },
                None => {},
            }
            let ghost prefix_models = span_models(row@);
            let src = &self.lines[top_row + i];
            let mut j: usize = 0;
            while j < src.len()
                invariant
                    j <= src@.len(),
                    src == &self.lines@[top_row + i],
                    span_models(row@) == prefix_models + span_models(src@.subrange(0, j as int)),
                decreases src@.len() - j,
            {
                let copied = src[j].duplicate();
                proof {
                    crate::highlight::lemma_span_models_push(row@, copied);
                    assert(span_models(src@.subrange(0, j + 1)) =~= span_models(
                        src@.subrange(0, j as int),
                    ).push(src@[j as int]@));
                }
                row.push(copied);
                j = j + 1;
            }
            proof {
                assert(src@.subrange(0, src@.len() as int) =~= src@);
                assert(span_models(row@) =~= base[i as int]);
            }
            if i == roi {
                let patched = patch_row(row, shifted, self.cursor_style);
                proof {
                    assert(target[i as int] =~= span_models(patched@));
                    assert(lines_models(out@.push(patched)) =~= target.subrange(0, i + 1));
                }
                out.push(patched);
            } else {
                proof {
                    assert(target[i as int] =~= span_models(row@));
                    assert(lines_models(out@.push(row)) =~= target.subrange(0, i + 1));
                }
                out.push(row);
            }
            i = i + 1;
        }
        proof {
            assert(target.subrange(0, target.len() as int) =~= target);
            assert(target.len() == n_vis);
        }
        out
    }

    /// One draw cycle: adjusts the scroll origin to keep the cursor visible,
    /// assembles the visible block, and stores the realized rectangle in the
    /// viewport for the next cycle. Returns the block and the new top row
    /// and top column.
    pub fn render(&mut self, width: u16, height: u16) -> (r: (Vec<Vec<Span>>, u16, u16))
        requires
            old(self).viewport.row_spec() + height <= 65535,
            old(self).viewport.col_spec() + width <= 65535,
            old(self).lines@.len() >= 1,
            old(self).cursor_row < old(self).lines@.len(),
            old(self).cursor_row <= 65535,
            old(self).cursor_col <= 65535,
            height == 0 ==> old(self).cursor_row < 65535,
            width == 0 ==> old(self).cursor_col < 65535,
            old(self).cursor_col + n_digits(old(self).lines@.len()) + 1 <= usize::MAX,
        ensures
            r.1 == next_scroll_top_spec(
                old(self).viewport.row_spec(),
                old(self).cursor_row as u16,
                height,
            ),
            r.2 == next_scroll_top_spec(
                old(self).viewport.col_spec(),
                old(self).cursor_col as u16,
                width,
            ),
            lines_models(r.0@) == text_spec(
                lines_models(old(self).lines@),
                r.1 as int,
                height as int,
                old(self).line_number_style,
                old(self).cursor_row as int,
                old(self).cursor_col as int,
                old(self).cursor_style,
            ),
            final(self).viewport.row_spec() == r.1,
            final(self).viewport.col_spec() == r.2,
            final(self).viewport.width_spec() == width,
            final(self).viewport.height_spec() == height,
            final(self).lines@ == old(self).lines@,
            final(self).cursor_row == old(self).cursor_row,
            final(self).cursor_col == old(self).cursor_col,
            final(self).cursor_style == old(self).cursor_style,
            final(self).line_number_style == old(self).line_number_style,
    {
        let (prev_row, prev_col) = self.viewport.scroll_top();
        let top_row = next_scroll_top(prev_row, self.cursor_row as u16, height);
        let top_col = next_scroll_top(prev_col, self.cursor_col as u16, width);
        proof {
            assert(self.cursor_row as u16 == self.cursor_row);
            assert(self.cursor_col as u16 == self.cursor_col);
        }
        let text = if height == 0 {
            let empty_rows: Vec<Vec<Span>> = Vec::new();
            proof {
                assert(lines_models(empty_rows@) =~= Seq::<Seq<SpanModel>>::empty());
                assert(visible_lines(
                    lines_models(self.lines@),
                    top_row as int,
                    0,
                    self.line_number_style,
                ).len() == 0);
                assert(lines_models(empty_rows@) =~= text_spec(
                    lines_models(self.lines@),
                    top_row as int,
                    0,
                    self.line_number_style,
                    self.cursor_row as int,
                    self.cursor_col as int,
                    self.cursor_style,
                ));
            }
            empty_rows
        } else {
            proof {
                assert(top_row <= self.cursor_row);
                assert(self.cursor_row <= top_row as usize + height as usize);
                assert(top_row as usize + height as usize <= usize::MAX);
            }
            self.text(top_row as usize, height as usize)
        };
        self.viewport.store(top_row, top_col, width, height);
        (text, top_row, top_col)
    }
}

} // verus!
