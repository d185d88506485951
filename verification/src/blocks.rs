//! The block scanner: splits raw text into an ordered sequence of typed
//! block spans that cover the whole input with no gaps and no overlaps.
//!
//! All rules are line oriented.  A line runs up to and including its `\n`,
//! or to end-of-input.  The scanner recognizes a frontmatter delimiter block
//! (only at the very first byte), heading lines, fenced code blocks,
//! indented code blocks, list blocks and paragraphs; runs of blank lines
//! become blank blocks so that the spans tile the input exactly.

use vstd::prelude::*;

verus! {

/// Kind of one block-level element.
#[derive(Debug, Clone, Copy, PartialEq, Eq, Structural)]
pub enum BlockKind {
    Frontmatter,
    Heading,
    Fenced,
    Indented,
    List,
    Paragraph,
    Blank,
}

/// One block: the bytes `[start, end)` of the input.
#[derive(Debug, Clone, Copy, PartialEq, Eq, Structural)]
pub struct Block {
    pub kind: BlockKind,
    pub start: usize,
    pub end: usize,
}

/// A block span at the specification level, with unbounded offsets.
pub struct SBlock {
    pub kind: BlockKind,
    pub start: int,
    pub end: int,
}

/// `bv` is the executable image of the specification blocks `bs`.
pub open spec fn blocks_match(bv: Seq<Block>, bs: Seq<SBlock>) -> bool {
    &&& bv.len() == bs.len()
    &&& forall|k: int|
        0 <= k < bs.len() ==> {
            &&& (#[trigger] bv[k]).kind == bs[k].kind
            &&& bv[k].start == bs[k].start
            &&& bv[k].end == bs[k].end
        }
}

/// ASCII whitespace: space, tab, line feed, carriage return.
pub open spec fn is_ws(b: u8) -> bool {
    b == 32 || b == 9 || b == 10 || b == 13
}

/// Exclusive end of the line that starts at `i`: one past its `\n`,
/// or the end of the input.
pub open spec fn line_end_at(s: Seq<u8>, i: int) -> int
    decreases s.len() - i,
{
    if i < 0 || i >= s.len() {
        s.len() as int
    } else if s[i] == 10 {
        i + 1
    } else {
        line_end_at(s, i + 1)
    }
}

pub proof fn lemma_line_end_bounds(s: Seq<u8>, i: int)
    ensures
        0 <= i < s.len() ==> i < line_end_at(s, i) <= s.len(),
        i >= s.len() || i < 0 ==> line_end_at(s, i) == s.len(),
    decreases s.len() - i,
{
    if 0 <= i < s.len() && s[i] != 10 {
        lemma_line_end_bounds(s, i + 1);
    }
}

/// Every byte of `[i, e)` is whitespace.
pub open spec fn all_ws(s: Seq<u8>, i: int, e: int) -> bool
    decreases e - i,
{
    i >= e || (is_ws(s[i]) && all_ws(s, i + 1, e))
}

/// Length of the run of byte `b` starting at `i`, within `[i, e)`.
pub open spec fn run_len(s: Seq<u8>, i: int, e: int, b: u8) -> int
    decreases e - i,
{
    if i >= e || s[i] != b {
        0
    } else {
        1 + run_len(s, i + 1, e, b)
    }
}

pub proof fn lemma_run_len_bounds(s: Seq<u8>, i: int, e: int, b: u8)
    ensures
        0 <= run_len(s, i, e, b),
        i <= e ==> i + run_len(s, i, e, b) <= e,
    decreases e - i,
{
    if i < e && s[i] == b {
        lemma_run_len_bounds(s, i + 1, e, b);
    }
}

/// The line starting at `i` holds only whitespace.
pub open spec fn line_blank(s: Seq<u8>, i: int) -> bool {
    all_ws(s, i, line_end_at(s, i))
}

/// 1 to 6 if the line at `i` is a heading (that many `#` markers followed
/// by whitespace or the line end), else 0.
pub open spec fn heading_level_at(s: Seq<u8>, i: int) -> int {
    let e = line_end_at(s, i);
    let h = run_len(s, i, e, 35);
    if 1 <= h <= 6 && (i + h == e || is_ws(s[i + h])) {
        h
    } else {
        0
    }
}

/// The line at `i` opens or closes a fenced code block: three backticks
/// at the start of the line.
pub open spec fn line_is_fence(s: Seq<u8>, i: int) -> bool {
    let e = line_end_at(s, i);
    e - i >= 3 && s[i] == 96 && s[i + 1] == 96 && s[i + 2] == 96
}

/// The line at `i` is a frontmatter delimiter: `---` and nothing else.
pub open spec fn line_is_fm_delim(s: Seq<u8>, i: int) -> bool {
    let e = line_end_at(s, i);
    e - i >= 3 && s[i] == 45 && s[i + 1] == 45 && s[i + 2] == 45 && all_ws(s, i + 3, e)
}

/// `-`, `*` or `+`.
pub open spec fn is_list_marker(b: u8) -> bool {
    b == 45 || b == 42 || b == 43
}

/// Number of leading space bytes of the line at `i`.
pub open spec fn line_indent(s: Seq<u8>, i: int) -> int {
    run_len(s, i, line_end_at(s, i), 32)
}

/// The line at `i` is a list item line: optional indentation, a list
/// marker, then whitespace or the line end.
pub open spec fn line_is_list(s: Seq<u8>, i: int) -> bool {
    let e = line_end_at(s, i);
    let n = line_indent(s, i);
    i + n < e && is_list_marker(s[i + n]) && (i + n + 1 == e || is_ws(s[i + n + 1]))
}

/// The line at `i` belongs to an indented code block: at least four
/// leading spaces and not blank.
pub open spec fn line_is_indented(s: Seq<u8>, i: int) -> bool {
    line_indent(s, i) >= 4 && !line_blank(s, i)
}

/// The line at `i` interrupts a paragraph.
pub open spec fn line_starts_block(s: Seq<u8>, i: int) -> bool {
    line_blank(s, i) || line_is_fence(s, i) || heading_level_at(s, i) >= 1 || line_is_list(s, i)
}

/// The line at `i` continues an open list block: a further item line, or
/// an indented non-blank continuation line.
pub open spec fn line_continues_list(s: Seq<u8>, i: int) -> bool {
    line_is_list(s, i) || (!line_blank(s, i) && (s[i] == 32 || s[i] == 9))
}

/// End of a run of blank lines starting at `i`.
pub open spec fn blank_end(s: Seq<u8>, i: int) -> int
    decreases s.len() - i,
        via blank_end_dec
{
    let e = line_end_at(s, i);
    if e < s.len() && line_blank(s, e) {
        blank_end(s, e)
    } else {
        e
    }
}

#[via_fn]
proof fn blank_end_dec(s: Seq<u8>, i: int) {
    lemma_line_end_bounds(s, i);
}

/// End of the fenced code block whose content starts at `i`: one past the
/// closing fence line, or end-of-input when no fence closes it.
pub open spec fn fence_close(s: Seq<u8>, i: int) -> int
    decreases s.len() - i,
        via fence_close_dec
{
    if i < 0 || i >= s.len() {
        s.len() as int
    } else if line_is_fence(s, i) {
        line_end_at(s, i)
    } else {
        fence_close(s, line_end_at(s, i))
    }
}

#[via_fn]
proof fn fence_close_dec(s: Seq<u8>, i: int) {
    lemma_line_end_bounds(s, i);
}

/// End of the frontmatter block whose content starts at `i`: one past the
/// closing delimiter line, or end-of-input when none closes it.
pub open spec fn fm_close(s: Seq<u8>, i: int) -> int
    decreases s.len() - i,
        via fm_close_dec
{
    if i < 0 || i >= s.len() {
        s.len() as int
    } else if line_is_fm_delim(s, i) {
        line_end_at(s, i)
    } else {
        fm_close(s, line_end_at(s, i))
    }
}

#[via_fn]
proof fn fm_close_dec(s: Seq<u8>, i: int) {
    lemma_line_end_bounds(s, i);
}

/// End of the list block whose first item line starts at `i`.
pub open spec fn list_end(s: Seq<u8>, i: int) -> int
    decreases s.len() - i,
        via list_end_dec
{
    let e = line_end_at(s, i);
    if e < s.len() && line_continues_list(s, e) {
        list_end(s, e)
    } else {
        e
    }
}

#[via_fn]
proof fn list_end_dec(s: Seq<u8>, i: int) {
    lemma_line_end_bounds(s, i);
}

/// End of the indented code block whose first line starts at `i`.
pub open spec fn indented_end(s: Seq<u8>, i: int) -> int
    decreases s.len() - i,
        via indented_end_dec
{
    let e = line_end_at(s, i);
    if e < s.len() && line_is_indented(s, e) {
        indented_end(s, e)
    } else {
        e
    }
}

#[via_fn]
proof fn indented_end_dec(s: Seq<u8>, i: int) {
    lemma_line_end_bounds(s, i);
}

/// End of the paragraph whose first line starts at `i`: paragraphs merge
/// consecutive lines until a blank or block-starting line.
pub open spec fn para_end(s: Seq<u8>, i: int) -> int
    decreases s.len() - i,
        via para_end_dec
{
    let e = line_end_at(s, i);
    if e < s.len() && !line_starts_block(s, e) {
        para_end(s, e)
    } else {
        e
    }
}

#[via_fn]
proof fn para_end_dec(s: Seq<u8>, i: int) {
    lemma_line_end_bounds(s, i);
}

pub proof fn lemma_blank_end_bounds(s: Seq<u8>, i: int)
    requires
        0 <= i < s.len(),
    ensures
        i < blank_end(s, i) <= s.len(),
    decreases s.len() - i,
{
    lemma_line_end_bounds(s, i);
    let e = line_end_at(s, i);
    if e < s.len() && line_blank(s, e) {
        lemma_blank_end_bounds(s, e);
    }
}

pub proof fn lemma_fence_close_bounds(s: Seq<u8>, i: int)
    requires
        0 <= i <= s.len(),
    ensures
        i <= fence_close(s, i) <= s.len(),
    decreases s.len() - i,
{
    if 0 <= i < s.len() {
        lemma_line_end_bounds(s, i);
        if !line_is_fence(s, i) {
            lemma_fence_close_bounds(s, line_end_at(s, i));
        }
    }
}

pub proof fn lemma_fm_close_bounds(s: Seq<u8>, i: int)
    requires
        0 <= i <= s.len(),
    ensures
        i <= fm_close(s, i) <= s.len(),
    decreases s.len() - i,
{
    if 0 <= i < s.len() {
        lemma_line_end_bounds(s, i);
        if !line_is_fm_delim(s, i) {
            lemma_fm_close_bounds(s, line_end_at(s, i));
        }
    }
}

pub proof fn lemma_list_end_bounds(s: Seq<u8>, i: int)
    requires
        0 <= i < s.len(),
    ensures
        i < list_end(s, i) <= s.len(),
    decreases s.len() - i,
{
    lemma_line_end_bounds(s, i);
    let e = line_end_at(s, i);
    if e < s.len() && line_continues_list(s, e) {
        lemma_list_end_bounds(s, e);
    }
}

pub proof fn lemma_indented_end_bounds(s: Seq<u8>, i: int)
    requires
        0 <= i < s.len(),
    ensures
        i < indented_end(s, i) <= s.len(),
    decreases s.len() - i,
{
    lemma_line_end_bounds(s, i);
    let e = line_end_at(s, i);
    if e < s.len() && line_is_indented(s, e) {
        lemma_indented_end_bounds(s, e);
    }
}

pub proof fn lemma_para_end_bounds(s: Seq<u8>, i: int)
    requires
        0 <= i < s.len(),
    ensures
        i < para_end(s, i) <= s.len(),
    decreases s.len() - i,
{
    lemma_line_end_bounds(s, i);
    let e = line_end_at(s, i);
    if e < s.len() && !line_starts_block(s, e) {
        lemma_para_end_bounds(s, e);
    }
}

/// The block whose first line starts at `i` (for `i` past any frontmatter).
pub open spec fn block_at(s: Seq<u8>, i: int) -> SBlock {
    if line_blank(s, i) {
        SBlock { kind: BlockKind::Blank, start: i, end: blank_end(s, i) }
    } else if line_is_fence(s, i) {
        SBlock { kind: BlockKind::Fenced, start: i, end: fence_close(s, line_end_at(s, i)) }
    } else if heading_level_at(s, i) >= 1 {
        SBlock { kind: BlockKind::Heading, start: i, end: line_end_at(s, i) }
    } else if line_is_list(s, i) {
        SBlock { kind: BlockKind::List, start: i, end: list_end(s, i) }
    } else if line_is_indented(s, i) {
        SBlock { kind: BlockKind::Indented, start: i, end: indented_end(s, i) }
    } else {
        SBlock { kind: BlockKind::Paragraph, start: i, end: para_end(s, i) }
    }
}

pub proof fn lemma_block_at_bounds(s: Seq<u8>, i: int)
    requires
        0 <= i < s.len(),
    ensures
        i < block_at(s, i).end <= s.len(),
        block_at(s, i).start == i,
{
    lemma_line_end_bounds(s, i);
    if line_blank(s, i) {
        lemma_blank_end_bounds(s, i);
    } else if line_is_fence(s, i) {
        lemma_fence_close_bounds(s, line_end_at(s, i));
    } else if heading_level_at(s, i) >= 1 {
    } else if line_is_list(s, i) {
        lemma_list_end_bounds(s, i);
    } else if line_is_indented(s, i) {
        lemma_indented_end_bounds(s, i);
    } else {
        lemma_para_end_bounds(s, i);
    }
}

/// All blocks from line start `i` to the end of the input.
pub open spec fn blocks_from(s: Seq<u8>, i: int) -> Seq<SBlock>
    decreases s.len() - i,
        via blocks_from_dec
{
    if i < 0 || i >= s.len() {
        Seq::empty()
    } else {
        seq![block_at(s, i)] + blocks_from(s, block_at(s, i).end)
    }
}

#[via_fn]
proof fn blocks_from_dec(s: Seq<u8>, i: int) {
    if 0 <= i < s.len() {
        lemma_block_at_bounds(s, i);
    }
}

/// The full block sequence of the input: a frontmatter block is recognized
/// only at the very first byte.
pub open spec fn spec_blocks(s: Seq<u8>) -> Seq<SBlock> {
    if s.len() > 0 && line_is_fm_delim(s, 0) {
        let e = fm_close(s, line_end_at(s, 0));
        seq![SBlock { kind: BlockKind::Frontmatter, start: 0, end: e }] + blocks_from(s, e)
    } else {
        blocks_from(s, 0)
    }
}

/// The spans of `bs` cover `[lo, hi)` exactly: each block is non-empty,
/// consecutive blocks are adjacent, and the whole range is covered.
pub open spec fn spans_tile(bs: Seq<SBlock>, lo: int, hi: int) -> bool {
    &&& (bs.len() == 0 ==> lo == hi)
    &&& (bs.len() > 0 ==> bs[0].start == lo && bs[bs.len() - 1].end == hi)
    &&& forall|k: int| 0 <= k < bs.len() ==> (#[trigger] bs[k]).start < bs[k].end
    &&& forall|k: int|
        #![trigger bs[k], bs[k + 1]]
        0 <= k < bs.len() - 1 ==> bs[k].end == bs[k + 1].start
}

/// Prepending one adjacent non-empty span to a tiling keeps it a tiling.
pub proof fn lemma_tile_cons(b: SBlock, rest: Seq<SBlock>, hi: int)
    requires
        b.start < b.end,
        spans_tile(rest, b.end, hi),
    ensures
        spans_tile(seq![b] + rest, b.start, hi),
{
    let bs = seq![b] + rest;
    assert forall|k: int| 0 <= k < bs.len() implies (#[trigger] bs[k]).start < bs[k].end by {
        if k > 0 {
            assert(bs[k] == rest[k - 1]);
        }
    }
    assert forall|k: int|
        #![trigger bs[k], bs[k + 1]]
        0 <= k < bs.len() - 1 implies bs[k].end == bs[k + 1].start by {
        if k == 0 {
            assert(bs[0] == b);
            assert(bs[1] == rest[0]);
            assert(rest[0].start == b.end);
        } else {
            let j = k - 1;
            assert(bs[k] == rest[j]);
            assert(bs[k + 1] == rest[j + 1]);
            assert(rest[j].end == rest[j + 1].start);
        }
    }
    if rest.len() > 0 {
        assert(bs[bs.len() - 1] == rest[rest.len() - 1]);
    }
}

pub proof fn lemma_blocks_from_tile(s: Seq<u8>, i: int)
    requires
        0 <= i <= s.len(),
    ensures
        spans_tile(blocks_from(s, i), i, s.len() as int),
    decreases s.len() - i,
{
    if i < s.len() {
        let b = block_at(s, i);
        lemma_block_at_bounds(s, i);
        lemma_blocks_from_tile(s, b.end);
        lemma_tile_cons(b, blocks_from(s, b.end), s.len() as int);
        assert(blocks_from(s, i) == seq![b] + blocks_from(s, b.end));
    }
}

/// The spans of the block scan cover the whole input, in order, with no
/// gaps and no overlaps: concatenating them reconstructs the input.
pub proof fn lemma_blocks_cover_input(s: Seq<u8>)
    ensures
        spans_tile(spec_blocks(s), 0, s.len() as int),
{
    if s.len() > 0 && line_is_fm_delim(s, 0) {
        lemma_line_end_bounds(s, 0);
        lemma_fm_close_bounds(s, line_end_at(s, 0));
        let e = fm_close(s, line_end_at(s, 0));
        lemma_blocks_from_tile(s, e);
        let fm = SBlock { kind: BlockKind::Frontmatter, start: 0, end: e };
        lemma_tile_cons(fm, blocks_from(s, e), s.len() as int);
        assert(spec_blocks(s) == seq![fm] + blocks_from(s, e));
    } else {
        lemma_blocks_from_tile(s, 0);
    }
}

/// What holds of every block span the scanner emits, by kind.
pub open spec fn block_shape_ok(s: Seq<u8>, b: SBlock) -> bool {
    &&& 0 <= b.start < s.len()
    &&& b.start < b.end <= s.len()
    &&& (b.kind == BlockKind::Blank ==> line_blank(s, b.start) && b.end == blank_end(s, b.start))
    &&& (b.kind == BlockKind::Fenced ==> line_is_fence(s, b.start) && b.end == fence_close(
        s,
        line_end_at(s, b.start),
    ))
    &&& (b.kind == BlockKind::Heading ==> heading_level_at(s, b.start) >= 1 && b.end
        == line_end_at(s, b.start))
    &&& (b.kind == BlockKind::List ==> line_is_list(s, b.start) && b.end == list_end(s, b.start))
    &&& (b.kind == BlockKind::Indented ==> line_is_indented(s, b.start) && b.end == indented_end(
        s,
        b.start,
    ))
    &&& (b.kind == BlockKind::Paragraph ==> !line_blank(s, b.start) && !line_is_fence(s, b.start)
        && heading_level_at(s, b.start) == 0 && !line_is_list(s, b.start) && !line_is_indented(
        s,
        b.start,
    ) && b.end == para_end(s, b.start))
    &&& (b.kind == BlockKind::Frontmatter ==> b.start == 0 && line_is_fm_delim(s, 0) && b.end
        == fm_close(s, line_end_at(s, 0)))
}

proof fn lemma_blocks_from_shape(s: Seq<u8>, i: int)
    requires
        0 <= i <= s.len(),
    ensures
        forall|k: int|
            0 <= k < blocks_from(s, i).len() ==> block_shape_ok(s, #[trigger] blocks_from(s, i)[k]),
    decreases s.len() - i,
{
    if i < s.len() {
        let b = block_at(s, i);
        lemma_block_at_bounds(s, i);
        lemma_blocks_from_shape(s, b.end);
        let rest = blocks_from(s, b.end);
        let bs = blocks_from(s, i);
        assert(bs == seq![b] + rest);
        assert(block_shape_ok(s, b));
        assert forall|k: int| 0 <= k < bs.len() implies block_shape_ok(s, #[trigger] bs[k]) by {
            if k > 0 {
                assert(bs[k] == rest[k - 1]);
            } else {
                assert(bs[0] == b);
            }
        }
    }
}

/// Every span of the block scan satisfies its kind's shape.
pub proof fn lemma_blocks_shape(s: Seq<u8>)
    ensures
        forall|k: int|
            0 <= k < spec_blocks(s).len() ==> block_shape_ok(s, #[trigger] spec_blocks(s)[k]),
{
    if s.len() > 0 && line_is_fm_delim(s, 0) {
        lemma_line_end_bounds(s, 0);
        lemma_fm_close_bounds(s, line_end_at(s, 0));
        let e = fm_close(s, line_end_at(s, 0));
        lemma_blocks_from_shape(s, e);
        let fm = SBlock { kind: BlockKind::Frontmatter, start: 0, end: e };
        let rest = blocks_from(s, e);
        let bs = spec_blocks(s);
        assert(bs == seq![fm] + rest);
        assert forall|k: int| 0 <= k < bs.len() implies block_shape_ok(s, #[trigger] bs[k]) by {
            if k > 0 {
                assert(bs[k] == rest[k - 1]);
            } else {
                assert(bs[0] == fm);
            }
        }
    } else {
        lemma_blocks_from_shape(s, 0);
    }
}

fn is_ws_x(b: u8) -> (r: bool)
    ensures
        r == is_ws(b),
{
    b == 32 || b == 9 || b == 10 || b == 13
}

pub(crate) fn line_end_x(s: &[u8], i: usize) -> (r: usize)
    requires
        i <= s@.len(),
    ensures
        r == line_end_at(s@, i as int),
        i < s@.len() ==> i < r <= s@.len(),
        i == s@.len() ==> r == s@.len(),
    decreases s@.len() - i,
{
    if i >= s.len() {
        s.len()
    } else if s[i] == 10 {
        i + 1
    } else {
        line_end_x(s, i + 1)
    }
}

pub(crate) fn all_ws_x(s: &[u8], i: usize, e: usize) -> (r: bool)
    requires
        i <= e <= s@.len(),
    ensures
        r == all_ws(s@, i as int, e as int),
    decreases e - i,
{
    if i >= e {
        true
    } else {
        is_ws_x(s[i]) && all_ws_x(s, i + 1, e)
    }
}

pub(crate) fn run_len_x(s: &[u8], i: usize, e: usize, b: u8) -> (r: usize)
    requires
        i <= e <= s@.len(),
    ensures
        r as int == run_len(s@, i as int, e as int, b),
        i + r <= e,
    decreases e - i,
{
    if i >= e || s[i] != b {
        0
    } else {
        proof {
            lemma_run_len_bounds(s@, i + 1, e as int, b);
        }
        1 + run_len_x(s, i + 1, e, b)
    }
}

fn line_blank_x(s: &[u8], i: usize) -> (r: bool)
    requires
        i <= s@.len(),
    ensures
        r == line_blank(s@, i as int),
{
    let e = line_end_x(s, i);
    all_ws_x(s, i, e)
}

pub(crate) fn heading_level_x(s: &[u8], i: usize) -> (r: usize)
    requires
        i <= s@.len(),
    ensures
        r as int == heading_level_at(s@, i as int),
{
    let e = line_end_x(s, i);
    let h = run_len_x(s, i, e, 35);
    if 1 <= h && h <= 6 && (i + h == e || is_ws_x(s[i + h])) {
        h
    } else {
        0
    }
}

pub(crate) fn line_is_fence_x(s: &[u8], i: usize) -> (r: bool)
    requires
        i <= s@.len(),
    ensures
        r == line_is_fence(s@, i as int),
{
    let e = line_end_x(s, i);
    e - i >= 3 && s[i] == 96 && s[i + 1] == 96 && s[i + 2] == 96
}

pub(crate) fn line_is_fm_delim_x(s: &[u8], i: usize) -> (r: bool)
    requires
        i <= s@.len(),
    ensures
        r == line_is_fm_delim(s@, i as int),
{
    let e = line_end_x(s, i);
    e - i >= 3 && s[i] == 45 && s[i + 1] == 45 && s[i + 2] == 45 && all_ws_x(s, i + 3, e)
}

fn line_is_list_x(s: &[u8], i: usize) -> (r: bool)
    requires
        i <= s@.len(),
    ensures
        r == line_is_list(s@, i as int),
{
    let e = line_end_x(s, i);
    let n = run_len_x(s, i, e, 32);
    i + n < e && (s[i + n] == 45 || s[i + n] == 42 || s[i + n] == 43) && (i + n + 1 == e
        || is_ws_x(s[i + n + 1]))
}

fn line_is_indented_x(s: &[u8], i: usize) -> (r: bool)
    requires
        i <= s@.len(),
    ensures
        r == line_is_indented(s@, i as int),
{
    let e = line_end_x(s, i);
    let n = run_len_x(s, i, e, 32);
    n >= 4 && !line_blank_x(s, i)
}

fn line_starts_block_x(s: &[u8], i: usize) -> (r: bool)
    requires
        i <= s@.len(),
    ensures
        r == line_starts_block(s@, i as int),
{
    line_blank_x(s, i) || line_is_fence_x(s, i) || heading_level_x(s, i) >= 1 || line_is_list_x(
        s,
        i,
    )
}

fn line_continues_list_x(s: &[u8], i: usize) -> (r: bool)
    requires
        i <= s@.len(),
    ensures
        r == line_continues_list(s@, i as int),
{
    line_is_list_x(s, i) || (i < s.len() && !line_blank_x(s, i) && (s[i] == 32 || s[i] == 9))
}

fn blank_end_x(s: &[u8], i: usize) -> (r: usize)
    requires
        i < s@.len(),
    ensures
        r as int == blank_end(s@, i as int),
        i < r <= s@.len(),
    decreases s@.len() - i,
{
    proof {
        lemma_blank_end_bounds(s@, i as int);
    }
    let e = line_end_x(s, i);
    if e < s.len() && line_blank_x(s, e) {
        blank_end_x(s, e)
    } else {
        e
    }
}

fn fence_close_x(s: &[u8], i: usize) -> (r: usize)
    requires
        i <= s@.len(),
    ensures
        r as int == fence_close(s@, i as int),
        i <= r <= s@.len(),
    decreases s@.len() - i,
{
    proof {
        lemma_fence_close_bounds(s@, i as int);
    }
    if i >= s.len() {
        s.len()
    } else if line_is_fence_x(s, i) {
        line_end_x(s, i)
    } else {
        let e = line_end_x(s, i);
        fence_close_x(s, e)
    }
}

fn fm_close_x(s: &[u8], i: usize) -> (r: usize)
    requires
        i <= s@.len(),
    ensures
        r as int == fm_close(s@, i as int),
        i <= r <= s@.len(),
    decreases s@.len() - i,
{
    proof {
        lemma_fm_close_bounds(s@, i as int);
    }
    if i >= s.len() {
        s.len()
    } else if line_is_fm_delim_x(s, i) {
        line_end_x(s, i)
    } else {
        let e = line_end_x(s, i);
        fm_close_x(s, e)
    }
}

fn list_end_x(s: &[u8], i: usize) -> (r: usize)
    requires
        i < s@.len(),
    ensures
        r as int == list_end(s@, i as int),
        i < r <= s@.len(),
    decreases s@.len() - i,
{
    proof {
        lemma_list_end_bounds(s@, i as int);
    }
    let e = line_end_x(s, i);
    if e < s.len() && line_continues_list_x(s, e) {
        list_end_x(s, e)
    } else {
        e
    }
}

fn indented_end_x(s: &[u8], i: usize) -> (r: usize)
    requires
        i < s@.len(),
    ensures
        r as int == indented_end(s@, i as int),
        i < r <= s@.len(),
    decreases s@.len() - i,
{
    proof {
        lemma_indented_end_bounds(s@, i as int);
    }
    let e = line_end_x(s, i);
    if e < s.len() && line_is_indented_x(s, e) {
        indented_end_x(s, e)
    } else {
        e
    }
}

fn para_end_x(s: &[u8], i: usize) -> (r: usize)
    requires
        i < s@.len(),
    ensures
        r as int == para_end(s@, i as int),
        i < r <= s@.len(),
    decreases s@.len() - i,
{
    proof {
        lemma_para_end_bounds(s@, i as int);
    }
    let e = line_end_x(s, i);
    if e < s.len() && !line_starts_block_x(s, e) {
        para_end_x(s, e)
    } else {
        e
    }
}

fn block_at_x(s: &[u8], i: usize) -> (b: Block)
    requires
        i < s@.len(),
    ensures
        b.kind == block_at(s@, i as int).kind,
        b.start == block_at(s@, i as int).start,
        b.end == block_at(s@, i as int).end,
        i < b.end <= s@.len(),
    decreases s@.len() - i,
{
    proof {
        lemma_block_at_bounds(s@, i as int);
    }
    if line_blank_x(s, i) {
        Block { kind: BlockKind::Blank, start: i, end: blank_end_x(s, i) }
    } else if line_is_fence_x(s, i) {
        let e = line_end_x(s, i);
        Block { kind: BlockKind::Fenced, start: i, end: fence_close_x(s, e) }
    } else if heading_level_x(s, i) >= 1 {
        Block { kind: BlockKind::Heading, start: i, end: line_end_x(s, i) }
    } else if line_is_list_x(s, i) {
        Block { kind: BlockKind::List, start: i, end: list_end_x(s, i) }
    } else if line_is_indented_x(s, i) {
        Block { kind: BlockKind::Indented, start: i, end: indented_end_x(s, i) }
    } else {
        Block { kind: BlockKind::Paragraph, start: i, end: para_end_x(s, i) }
    }
}

/// Prepending one matching block to a matching pair keeps them matching.
proof fn lemma_match_cons(b: Block, sb: SBlock, rest: Seq<Block>, srest: Seq<SBlock>)
    requires
        b.kind == sb.kind,
        b.start == sb.start,
        b.end == sb.end,
        blocks_match(rest, srest),
    ensures
        blocks_match(seq![b] + rest, seq![sb] + srest),
{
    let bv = seq![b] + rest;
    let bs = seq![sb] + srest;
    assert forall|k: int| 0 <= k < bs.len() implies {
        &&& (#[trigger] bv[k]).kind == bs[k].kind
        &&& bv[k].start == bs[k].start
        &&& bv[k].end == bs[k].end
    } by {
        if k > 0 {
            assert(bv[k] == rest[k - 1]);
            assert(bs[k] == srest[k - 1]);
        }
    }
}

fn blocks_from_x(s: &[u8], i: usize) -> (r: Vec<Block>)
    requires
        i <= s@.len(),
    ensures
        blocks_match(r@, blocks_from(s@, i as int)),
    decreases s@.len() - i,
{
    if i >= s.len() {
        Vec::new()
    } else {
        let b = block_at_x(s, i);
        let mut r: Vec<Block> = Vec::new();
        r.push(b);
        let mut rest = blocks_from_x(s, b.end);
        proof {
            lemma_match_cons(
                b,
                block_at(s@, i as int),
                rest@,
                blocks_from(s@, block_at(s@, i as int).end),
            );
        }
        r.append(&mut rest);
        proof {
            assert(blocks_from(s@, i as int) == seq![block_at(s@, i as int)] + blocks_from(
                s@,
                block_at(s@, i as int).end,
            ));
        }
        r
    }
}

/// Splits the input into its ordered block spans.
///
/// The returned spans are exactly the specification-level block scan of the
/// input, and they tile the input: concatenated in order they reconstruct
/// it byte for byte, with no gaps and no overlaps.
pub fn scan_blocks(s: &[u8]) -> (r: Vec<Block>)
    ensures
        blocks_match(r@, spec_blocks(s@)),
        spans_tile(spec_blocks(s@), 0, s@.len() as int),
        r@.len() == 0 ==> s@.len() == 0,
        r@.len() > 0 ==> r@[0].start == 0 && r@[r@.len() - 1].end == s@.len(),
        forall|k: int| 0 <= k < r@.len() ==> (#[trigger] r@[k]).start < r@[k].end,
        forall|k: int|
            #![trigger r@[k], r@[k + 1]]
            0 <= k < r@.len() - 1 ==> r@[k].end == r@[k + 1].start,
{
    proof {
        lemma_blocks_cover_input(s@);
    }
    if s.len() > 0 && line_is_fm_delim_x(s, 0) {
        let e0 = line_end_x(s, 0);
        let e = fm_close_x(s, e0);
        let fm = Block { kind: BlockKind::Frontmatter, start: 0, end: e };
        let mut r: Vec<Block> = Vec::new();
        r.push(fm);
        let mut rest = blocks_from_x(s, e);
        proof {
            let sfm = SBlock {
                kind: BlockKind::Frontmatter,
                start: 0,
                end: fm_close(s@, line_end_at(s@, 0)),
            };
            lemma_match_cons(fm, sfm, rest@, blocks_from(s@, sfm.end));
        }
        r.append(&mut rest);
        r
    } else {
        blocks_from_x(s, 0)
    }
}

} // verus!
