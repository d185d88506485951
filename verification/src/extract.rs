//! Code block extraction, task extraction, and readability statistics.
//!
//! Code blocks keep their content verbatim: fence lines are stripped from
//! fenced blocks, indented blocks keep their indentation.  Tasks are the
//! checkbox items of list blocks, with `[x]`/`[X]` checked and `[ ]` not;
//! depth counts two indent columns per level.  The word count covers
//! paragraph, heading and list-item prose (markers and checkboxes
//! excluded), never code block content or frontmatter.

use vstd::prelude::*;
use crate::blocks::{Block, BlockKind, SBlock, blocks_match, spec_blocks, line_end_at,
    lemma_line_end_bounds, block_shape_ok, lemma_blocks_shape, is_ws, run_len,
    lemma_run_len_bounds, heading_level_at, line_is_fence, is_list_marker,
    lemma_blocks_cover_input};
use crate::model::{CodeBlock, Task};
use crate::text::{trimmed, trim_copy, copy_range, ws_front, ws_front_x, wcount,
    lemma_wcount_bounds, count_words};

verus! {

/// A code block at the specification level.
pub struct SCode {
    pub language: Seq<u8>,
    pub content: Seq<u8>,
    pub start: int,
    pub end: int,
}

/// A task at the specification level.
pub struct STask {
    pub checked: bool,
    pub depth: int,
    pub text: Seq<u8>,
    pub start: int,
}

pub open spec fn codes_match(cv: Seq<CodeBlock>, cs: Seq<SCode>) -> bool {
    &&& cv.len() == cs.len()
    &&& forall|k: int|
        0 <= k < cs.len() ==> {
            &&& (#[trigger] cv[k]).language@ == cs[k].language
            &&& cv[k].content@ == cs[k].content
            &&& cv[k].start_offset as int == cs[k].start
            &&& cv[k].end_offset as int == cs[k].end
        }
}

pub open spec fn tasks_match(tv: Seq<Task>, ts: Seq<STask>) -> bool {
    &&& tv.len() == ts.len()
    &&& forall|k: int|
        0 <= k < ts.len() ==> {
            &&& (#[trigger] tv[k]).checked == ts[k].checked
            &&& tv[k].depth as int == ts[k].depth
            &&& tv[k].text@ == ts[k].text
            &&& tv[k].start_offset as int == ts[k].start
        }
}

/// One past the last byte of the first whitespace-free token of `[i, e)`.
pub open spec fn token_end(s: Seq<u8>, i: int, e: int) -> int
    decreases e - i,
{
    if i >= e || is_ws(s[i]) {
        i
    } else {
        token_end(s, i + 1, e)
    }
}

fn token_end_x(s: &[u8], i: usize, e: usize) -> (r: usize)
    requires
        i <= e <= s@.len(),
    ensures
        r as int == token_end(s@, i as int, e as int),
        i <= r <= e,
    decreases e - i,
{
    if i >= e || s[i] == 32 || s[i] == 9 || s[i] == 10 || s[i] == 13 {
        i
    } else {
        token_end_x(s, i + 1, e)
    }
}

/// Start of the closing fence line after content position `i`, or
/// end-of-input when no fence closes the block.
pub open spec fn fence_inner_end(s: Seq<u8>, i: int) -> int
    decreases s.len() - i,
        via fence_inner_end_dec
{
    if i < 0 || i >= s.len() {
        s.len() as int
    } else if line_is_fence(s, i) {
        i
    } else {
        fence_inner_end(s, line_end_at(s, i))
    }
}

#[via_fn]
proof fn fence_inner_end_dec(s: Seq<u8>, i: int) {
    lemma_line_end_bounds(s, i);
}

pub proof fn lemma_fence_inner_end_bounds(s: Seq<u8>, i: int)
    requires
        0 <= i <= s.len(),
    ensures
        i <= fence_inner_end(s, i) <= s.len(),
    decreases s.len() - i,
{
    if i < s.len() && !line_is_fence(s, i) {
        lemma_line_end_bounds(s, i);
        lemma_fence_inner_end_bounds(s, line_end_at(s, i));
    }
}

fn fence_inner_end_x(s: &[u8], i: usize) -> (r: usize)
    requires
        i <= s@.len(),
    ensures
        r as int == fence_inner_end(s@, i as int),
        i <= r <= s@.len(),
    decreases s@.len() - i,
{
    proof {
        lemma_line_end_bounds(s@, i as int);
        lemma_fence_inner_end_bounds(s@, i as int);
    }
    if i >= s.len() {
        s.len()
    } else if crate::blocks::line_is_fence_x(s, i) {
        i
    } else {
        let e = crate::blocks::line_end_x(s, i);
        fence_inner_end_x(s, e)
    }
}

/// The code block extracted from a fenced or indented block span.
pub open spec fn code_of_block(s: Seq<u8>, b: SBlock) -> SCode {
    if b.kind == BlockKind::Fenced {
        let e1 = line_end_at(s, b.start);
        let ls = ws_front(s, b.start + 3, e1);
        let le = token_end(s, ls, e1);
        SCode {
            language: s.subrange(ls, le),
            content: s.subrange(e1, fence_inner_end(s, e1)),
            start: b.start,
            end: b.end,
        }
    } else {
        SCode {
            language: Seq::empty(),
            content: s.subrange(b.start, b.end),
            start: b.start,
            end: b.end,
        }
    }
}

/// The code blocks of `bs[k..]`, in order.
pub open spec fn codes_from(s: Seq<u8>, bs: Seq<SBlock>, k: int) -> Seq<SCode>
    decreases bs.len() - k,
{
    if k < 0 || k >= bs.len() {
        Seq::empty()
    } else if bs[k].kind == BlockKind::Fenced || bs[k].kind == BlockKind::Indented {
        seq![code_of_block(s, bs[k])] + codes_from(s, bs, k + 1)
    } else {
        codes_from(s, bs, k + 1)
    }
}

/// All code blocks of the input.
pub open spec fn spec_code_blocks(s: Seq<u8>) -> Seq<SCode> {
    codes_from(s, spec_blocks(s), 0)
}

/// The checkbox marker `[ ]`, `[x]` or `[X]` stands at `w`, followed by
/// whitespace or the span end.
pub open spec fn checkbox_at(s: Seq<u8>, w: int, stop: int) -> bool {
    &&& w + 3 <= stop
    &&& s[w] == 91
    &&& (s[w + 1] == 32 || s[w + 1] == 120 || s[w + 1] == 88)
    &&& s[w + 2] == 93
    &&& (w + 3 == stop || is_ws(s[w + 3]))
}

/// Whether the line at `[i, stop)` is a list item line, reading only the
/// bytes up to `stop`.
pub open spec fn item_marker_pos(s: Seq<u8>, i: int, stop: int) -> int {
    i + run_len(s, i, stop, 32)
}

pub open spec fn is_item_line(s: Seq<u8>, i: int, stop: int) -> bool {
    let m = item_marker_pos(s, i, stop);
    m < stop && is_list_marker(s[m]) && (m + 1 == stop || is_ws(s[m + 1]))
}

/// The task of the list line at `[i, stop)`, if it carries a checkbox.
pub open spec fn task_of_line(s: Seq<u8>, i: int, stop: int) -> Option<STask> {
    if is_item_line(s, i, stop) {
        let m = item_marker_pos(s, i, stop);
        let w = ws_front(s, m + 1, stop);
        if checkbox_at(s, w, stop) {
            Some(
                STask {
                    checked: s[w + 1] == 120 || s[w + 1] == 88,
                    depth: (m - i) / 2,
                    text: trimmed(s, w + 3, stop),
                    start: i,
                },
            )
        } else {
            None
        }
    } else {
        None
    }
}

/// Start of the prose of the line at `[i, stop)`: after the list marker
/// and checkbox when present, else the whole line.
pub open spec fn prose_start(s: Seq<u8>, i: int, stop: int) -> int {
    if is_item_line(s, i, stop) {
        let m = item_marker_pos(s, i, stop);
        let w = ws_front(s, m + 1, stop);
        if checkbox_at(s, w, stop) {
            w + 3
        } else {
            m + 1
        }
    } else {
        i
    }
}

/// The tasks of the list block lines in `[i, end)`.
pub open spec fn tasks_in(s: Seq<u8>, i: int, end: int) -> Seq<STask>
    decreases end - i,
        via tasks_in_dec
{
    if i < 0 || i >= end {
        Seq::empty()
    } else {
        let e = line_end_at(s, i);
        let stop = if e > end || e <= i {
            end
        } else {
            e
        };
        (match task_of_line(s, i, stop) {
            Some(t) => seq![t],
            None => Seq::empty(),
        }) + tasks_in(s, stop, end)
    }
}

#[via_fn]
proof fn tasks_in_dec(s: Seq<u8>, i: int, end: int) {
    lemma_line_end_bounds(s, i);
}

/// The tasks of the blocks `bs[k..]`, in order.
pub open spec fn tasks_from(s: Seq<u8>, bs: Seq<SBlock>, k: int) -> Seq<STask>
    decreases bs.len() - k,
{
    if k < 0 || k >= bs.len() {
        Seq::empty()
    } else if bs[k].kind == BlockKind::List {
        tasks_in(s, bs[k].start, bs[k].end) + tasks_from(s, bs, k + 1)
    } else {
        tasks_from(s, bs, k + 1)
    }
}

/// All tasks of the input.
pub open spec fn spec_tasks(s: Seq<u8>) -> Seq<STask> {
    tasks_from(s, spec_blocks(s), 0)
}

/// The words of the list block lines in `[i, end)`, markers and
/// checkboxes excluded.
pub open spec fn list_words(s: Seq<u8>, i: int, end: int) -> int
    decreases end - i,
        via list_words_dec
{
    if i < 0 || i >= end {
        0
    } else {
        let e = line_end_at(s, i);
        let stop = if e > end || e <= i {
            end
        } else {
            e
        };
        wcount(s, prose_start(s, i, stop), stop, true) + list_words(s, stop, end)
    }
}

#[via_fn]
proof fn list_words_dec(s: Seq<u8>, i: int, end: int) {
    lemma_line_end_bounds(s, i);
}

proof fn lemma_prose_start_bounds(s: Seq<u8>, i: int, stop: int)
    requires
        0 <= i <= stop,
    ensures
        i <= prose_start(s, i, stop) <= stop,
{
    lemma_run_len_bounds(s, i, stop, 32);
    if is_item_line(s, i, stop) {
        let m = item_marker_pos(s, i, stop);
        crate::text::lemma_ws_front_bounds(s, m + 1, stop);
    }
}

proof fn lemma_list_words_bound(s: Seq<u8>, i: int, end: int)
    requires
        0 <= i,
    ensures
        0 <= list_words(s, i, end) <= (if i <= end {
            end - i
        } else {
            0
        }),
    decreases end - i,
{
    if i < end {
        let e = line_end_at(s, i);
        let stop = if e > end || e <= i {
            end
        } else {
            e
        };
        lemma_prose_start_bounds(s, i, stop);
        lemma_wcount_bounds(s, prose_start(s, i, stop), stop, true);
        lemma_list_words_bound(s, stop, end);
    }
}

/// The words of one block: paragraph and heading prose and list items
/// count, code, blank and frontmatter spans do not.
pub open spec fn words_of_block(s: Seq<u8>, b: SBlock) -> int {
    if b.kind == BlockKind::Paragraph {
        wcount(s, b.start, b.end, true)
    } else if b.kind == BlockKind::Heading {
        wcount(s, b.start + heading_level_at(s, b.start), b.end, true)
    } else if b.kind == BlockKind::List {
        list_words(s, b.start, b.end)
    } else {
        0
    }
}

proof fn lemma_words_of_block_bound(s: Seq<u8>, b: SBlock)
    requires
        block_shape_ok(s, b),
    ensures
        0 <= words_of_block(s, b) <= b.end - b.start,
{
    if b.kind == BlockKind::Paragraph {
        lemma_wcount_bounds(s, b.start, b.end, true);
    } else if b.kind == BlockKind::Heading {
        let lvl = heading_level_at(s, b.start);
        lemma_run_len_bounds(s, b.start, line_end_at(s, b.start), 35);
        lemma_wcount_bounds(s, b.start + lvl, b.end, true);
    } else if b.kind == BlockKind::List {
        lemma_list_words_bound(s, b.start, b.end);
    }
}

/// The words of the blocks `bs[k..]`.
pub open spec fn words_from(s: Seq<u8>, bs: Seq<SBlock>, k: int) -> int
    decreases bs.len() - k,
{
    if k < 0 || k >= bs.len() {
        0
    } else {
        words_of_block(s, bs[k]) + words_from(s, bs, k + 1)
    }
}

/// The word count of the whole input.
pub open spec fn spec_word_count(s: Seq<u8>) -> int {
    words_from(s, spec_blocks(s), 0)
}

proof fn lemma_words_from_bound(s: Seq<u8>, k: int)
    requires
        0 <= k <= spec_blocks(s).len(),
    ensures
        0 <= words_from(s, spec_blocks(s), k) <= (if k < spec_blocks(s).len() {
            s.len() - spec_blocks(s)[k].start
        } else {
            0
        }),
    decreases spec_blocks(s).len() - k,
{
    let bs = spec_blocks(s);
    lemma_blocks_cover_input(s);
    lemma_blocks_shape(s);
    if k < bs.len() {
        lemma_words_of_block_bound(s, bs[k]);
        lemma_words_from_bound(s, k + 1);
        if k + 1 < bs.len() {
            assert(bs[k].end == bs[k + 1].start);
        } else {
            assert(bs[bs.len() - 1].end == s.len());
        }
    }
}

/// The word count of the whole input is bounded by its length.
pub proof fn lemma_word_count_bound(s: Seq<u8>)
    ensures
        0 <= spec_word_count(s) <= s.len(),
{
    lemma_blocks_cover_input(s);
    if spec_blocks(s).len() > 0 {
        lemma_words_from_bound(s, 0);
    }
}

fn code_of_block_x(s: &[u8], b: Block) -> (c: CodeBlock)
    requires
        b.kind == BlockKind::Fenced || b.kind == BlockKind::Indented,
        block_shape_ok(s@, SBlock { kind: b.kind, start: b.start as int, end: b.end as int }),
    ensures
        ({
            let sc = code_of_block(
                s@,
                SBlock { kind: b.kind, start: b.start as int, end: b.end as int },
            );
            c.language@ == sc.language && c.content@ == sc.content && c.start_offset as int
                == sc.start && c.end_offset as int == sc.end
        }),
{
    if b.kind == BlockKind::Fenced {
        proof {
            lemma_line_end_bounds(s@, b.start as int);
        }
        let e1 = crate::blocks::line_end_x(s, b.start);
        let ls = ws_front_x(s, b.start + 3, e1);
        let le = token_end_x(s, ls, e1);
        let inner = fence_inner_end_x(s, e1);
        CodeBlock {
            language: copy_range(s, ls, le),
            content: copy_range(s, e1, inner),
            start_offset: b.start,
            end_offset: b.end,
        }
    } else {
        CodeBlock {
            language: Vec::new(),
            content: copy_range(s, b.start, b.end),
            start_offset: b.start,
            end_offset: b.end,
        }
    }
}

proof fn lemma_cmatch_cons(c: CodeBlock, sc: SCode, rest: Seq<CodeBlock>, srest: Seq<SCode>)
    requires
        c.language@ == sc.language,
        c.content@ == sc.content,
        c.start_offset as int == sc.start,
        c.end_offset as int == sc.end,
        codes_match(rest, srest),
    ensures
        codes_match(seq![c] + rest, seq![sc] + srest),
{
    let cv = seq![c] + rest;
    let cs = seq![sc] + srest;
    assert forall|k: int| 0 <= k < cs.len() implies {
        &&& (#[trigger] cv[k]).language@ == cs[k].language
        &&& cv[k].content@ == cs[k].content
        &&& cv[k].start_offset as int == cs[k].start
        &&& cv[k].end_offset as int == cs[k].end
    } by {
        if k > 0 {
            assert(cv[k] == rest[k - 1]);
            assert(cs[k] == srest[k - 1]);
        }
    }
}

fn codes_rec(s: &[u8], blocks: &Vec<Block>, k: usize) -> (r: Vec<CodeBlock>)
    requires
        blocks_match(blocks@, spec_blocks(s@)),
        k <= blocks@.len(),
    ensures
        codes_match(r@, codes_from(s@, spec_blocks(s@), k as int)),
    decreases blocks@.len() - k,
{
    proof {
        lemma_blocks_shape(s@);
    }
    if k >= blocks.len() {
        Vec::new()
    } else {
        let b = blocks[k];
        if b.kind == BlockKind::Fenced || b.kind == BlockKind::Indented {
            proof {
                assert(block_shape_ok(s@, spec_blocks(s@)[k as int]));
            }
            let c = code_of_block_x(s, b);
            let mut v: Vec<CodeBlock> = Vec::new();
            v.push(c);
            let mut rest = codes_rec(s, blocks, k + 1);
            let ghost tail = rest@;
            v.append(&mut rest);
            proof {
                assert(v@ =~= seq![c] + tail);
                lemma_cmatch_cons(
                    c,
                    code_of_block(s@, spec_blocks(s@)[k as int]),
                    tail,
                    codes_from(s@, spec_blocks(s@), k + 1),
                );
            }
            v
        } else {
            codes_rec(s, blocks, k + 1)
        }
    }
}

/// Code block extraction over an existing block scan.
pub fn code_blocks_of_blocks(s: &[u8], blocks: &Vec<Block>) -> (r: Vec<CodeBlock>)
    requires
        blocks_match(blocks@, spec_blocks(s@)),
    ensures
        codes_match(r@, spec_code_blocks(s@)),
{
    codes_rec(s, blocks, 0)
}

proof fn lemma_tmatch_concat(a: Seq<Task>, sa: Seq<STask>, b: Seq<Task>, sb: Seq<STask>)
    requires
        tasks_match(a, sa),
        tasks_match(b, sb),
    ensures
        tasks_match(a + b, sa + sb),
{
    let tv = a + b;
    let ts = sa + sb;
    assert forall|k: int| 0 <= k < ts.len() implies {
        &&& (#[trigger] tv[k]).checked == ts[k].checked
        &&& tv[k].depth as int == ts[k].depth
        &&& tv[k].text@ == ts[k].text
        &&& tv[k].start_offset as int == ts[k].start
    } by {
        if k < a.len() {
            assert(tv[k] == a[k]);
            assert(ts[k] == sa[k]);
        } else {
            let j = k - a.len();
            assert(tv[k] == b[j]);
            assert(ts[k] == sb[j]);
        }
    }
}

fn task_of_line_x(s: &[u8], i: usize, stop: usize) -> (r: Option<Task>)
    requires
        i <= stop <= s@.len(),
    ensures
        (match r {
            Option::None => task_of_line(s@, i as int, stop as int).is_none(),
            Option::Some(t) => {
                let st = task_of_line(s@, i as int, stop as int);
                &&& st.is_some()
                &&& t.checked == st.unwrap().checked
                &&& t.depth as int == st.unwrap().depth
                &&& t.text@ == st.unwrap().text
                &&& t.start_offset as int == st.unwrap().start
            },
        }),
{
    let n = crate::blocks::run_len_x(s, i, stop, 32);
    let m = i + n;
    if m < stop {
        let mb = s[m];
        if (mb == 45 || mb == 42 || mb == 43) && (m + 1 == stop || s[m + 1] == 32 || s[m + 1] == 9
            || s[m + 1] == 10 || s[m + 1] == 13) {
            let w = ws_front_x(s, m + 1, stop);
            if w < stop && stop - w >= 3 && s[w] == 91 && (s[w + 1] == 32 || s[w + 1] == 120 || s[w
                + 1] == 88) && s[w + 2] == 93 && (w + 3 == stop || s[w + 3] == 32 || s[w + 3] == 9
                || s[w + 3] == 10 || s[w + 3] == 13) {
                return Some(
                    Task {
                        checked: s[w + 1] == 120 || s[w + 1] == 88,
                        depth: n / 2,
                        text: trim_copy(s, w + 3, stop),
                        start_offset: i,
                    },
                );
            }
            return None;
        }
    }
    None
}

fn tasks_in_x(s: &[u8], i: usize, end: usize) -> (r: Vec<Task>)
    requires
        end <= s@.len(),
    ensures
        tasks_match(r@, tasks_in(s@, i as int, end as int)),
    decreases end - i,
{
    if i >= end {
        Vec::new()
    } else {
        proof {
            lemma_line_end_bounds(s@, i as int);
        }
        let e0 = crate::blocks::line_end_x(s, i);
        let stop = if e0 > end || e0 <= i {
            end
        } else {
            e0
        };
        let topt = task_of_line_x(s, i, stop);
        let mut v: Vec<Task> = Vec::new();
        match topt {
            Option::Some(t) => {
                v.push(t);
            },
            Option::None => {},
        }
        let ghost head = v@;
        let mut rest = tasks_in_x(s, stop, end);
        let ghost tail = rest@;
        v.append(&mut rest);
        proof {
            let st = task_of_line(s@, i as int, stop as int);
            let hs = (match st {
                Some(t) => seq![t],
                None => Seq::<STask>::empty(),
            });
            assert(tasks_match(head, hs));
            lemma_tmatch_concat(head, hs, tail, tasks_in(s@, stop as int, end as int));
        }
        v
    }
}

fn tasks_rec(s: &[u8], blocks: &Vec<Block>, k: usize) -> (r: Vec<Task>)
    requires
        blocks_match(blocks@, spec_blocks(s@)),
        k <= blocks@.len(),
    ensures
        tasks_match(r@, tasks_from(s@, spec_blocks(s@), k as int)),
    decreases blocks@.len() - k,
{
    proof {
        lemma_blocks_shape(s@);
    }
    if k >= blocks.len() {
        Vec::new()
    } else {
        let b = blocks[k];
        if b.kind == BlockKind::List {
            proof {
                assert(block_shape_ok(s@, spec_blocks(s@)[k as int]));
            }
            let mut v = tasks_in_x(s, b.start, b.end);
            let ghost head = v@;
            let mut rest = tasks_rec(s, blocks, k + 1);
            let ghost tail = rest@;
            v.append(&mut rest);
            proof {
                lemma_tmatch_concat(
                    head,
                    tasks_in(s@, b.start as int, b.end as int),
                    tail,
                    tasks_from(s@, spec_blocks(s@), k + 1),
                );
            }
            v
        } else {
            tasks_rec(s, blocks, k + 1)
        }
    }
}

/// Task extraction over an existing block scan.
pub fn tasks_of_blocks(s: &[u8], blocks: &Vec<Block>) -> (r: Vec<Task>)
    requires
        blocks_match(blocks@, spec_blocks(s@)),
    ensures
        tasks_match(r@, spec_tasks(s@)),
{
    tasks_rec(s, blocks, 0)
}

fn prose_start_x(s: &[u8], i: usize, stop: usize) -> (r: usize)
    requires
        i <= stop <= s@.len(),
    ensures
        r as int == prose_start(s@, i as int, stop as int),
        i <= r <= stop,
{
    proof {
        lemma_prose_start_bounds(s@, i as int, stop as int);
    }
    let n = crate::blocks::run_len_x(s, i, stop, 32);
    let m = i + n;
    if m < stop {
        let mb = s[m];
        if (mb == 45 || mb == 42 || mb == 43) && (m + 1 == stop || s[m + 1] == 32 || s[m + 1] == 9
            || s[m + 1] == 10 || s[m + 1] == 13) {
            let w = ws_front_x(s, m + 1, stop);
            if w < stop && stop - w >= 3 && s[w] == 91 && (s[w + 1] == 32 || s[w + 1] == 120 || s[w
                + 1] == 88) && s[w + 2] == 93 && (w + 3 == stop || s[w + 3] == 32 || s[w + 3] == 9
                || s[w + 3] == 10 || s[w + 3] == 13) {
                return w + 3;
            }
            return m + 1;
        }
    }
    i
}

fn list_words_x(s: &[u8], i: usize, end: usize) -> (r: usize)
    requires
        end <= s@.len(),
    ensures
        r as int == list_words(s@, i as int, end as int),
        i <= end ==> r <= end - i,
    decreases end - i,
{
    if i >= end {
        0
    } else {
        proof {
            lemma_line_end_bounds(s@, i as int);
            lemma_list_words_bound(s@, i as int, end as int);
        }
        let e0 = crate::blocks::line_end_x(s, i);
        let stop = if e0 > end || e0 <= i {
            end
        } else {
            e0
        };
        let ps = prose_start_x(s, i, stop);
        proof {
            lemma_wcount_bounds(s@, ps as int, stop as int, true);
            lemma_list_words_bound(s@, stop as int, end as int);
        }
        let here = count_words(s, ps, stop);
        let rest = list_words_x(s, stop, end);
        here + rest
    }
}

fn words_rec(s: &[u8], blocks: &Vec<Block>, k: usize) -> (r: usize)
    requires
        blocks_match(blocks@, spec_blocks(s@)),
        k <= blocks@.len(),
    ensures
        r as int == words_from(s@, spec_blocks(s@), k as int),
    decreases blocks@.len() - k,
{
    proof {
        lemma_blocks_shape(s@);
        lemma_words_from_bound(s@, k as int);
    }
    let text_len = s.len();
    proof {
        assert(spec_word_count(s@) <= text_len) by {
            lemma_word_count_bound(s@);
        }
    }
    if k >= blocks.len() {
        0
    } else {
        let b = blocks[k];
        proof {
            assert(block_shape_ok(s@, spec_blocks(s@)[k as int]));
            lemma_words_of_block_bound(s@, spec_blocks(s@)[k as int]);
            lemma_words_from_bound(s@, k + 1);
        }
        let here: usize = if b.kind == BlockKind::Paragraph {
            count_words(s, b.start, b.end)
        } else if b.kind == BlockKind::Heading {
            proof {
                lemma_run_len_bounds(s@, b.start as int, line_end_at(s@, b.start as int), 35);
                lemma_line_end_bounds(s@, b.start as int);
            }
            let lvl = crate::blocks::heading_level_x(s, b.start);
            count_words(s, b.start + lvl, b.end)
        } else if b.kind == BlockKind::List {
            list_words_x(s, b.start, b.end)
        } else {
            0
        };
        let rest = words_rec(s, blocks, k + 1);
        here + rest
    }
}

/// Word count over an existing block scan: whitespace-delimited tokens of
/// paragraph, heading and list-item prose, excluding code block content
/// and frontmatter.
pub fn word_count_of_blocks(s: &[u8], blocks: &Vec<Block>) -> (r: usize)
    requires
        blocks_match(blocks@, spec_blocks(s@)),
    ensures
        r as int == spec_word_count(s@),
        r <= s@.len(),
{
    proof {
        lemma_word_count_bound(s@);
    }
    words_rec(s, blocks, 0)
}

} // verus!
