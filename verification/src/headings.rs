//! Heading extraction: hierarchy level, display text, and a normalized
//! anchor slug that is unique within the document.
//!
//! Slug rule: ASCII letters are lowercased, digits, hyphens and underscores
//! are kept, spaces and tabs become hyphens, every other byte is dropped.
//! When the same base slug appears again, the nth occurrence gets `-n`
//! appended; if even that collides with a literal heading, hyphens are
//! appended until the slug is fresh, so slugs are always unique.

use vstd::prelude::*;
use crate::blocks::{Block, BlockKind, SBlock, blocks_match, spec_blocks, heading_level_at,
    line_end_at, lemma_run_len_bounds, lemma_line_end_bounds, block_shape_ok, lemma_blocks_shape,
    heading_level_x};
use crate::model::Heading;
use crate::text::{trimmed, trim_copy, dec_digits, push_decimal, bytes_eq};

verus! {

/// A heading at the specification level.
pub struct SHeading {
    pub level: int,
    pub text: Seq<u8>,
    pub slug: Seq<u8>,
    pub start: int,
}

/// Image of one byte under slug normalization.
pub open spec fn slug_byte(b: u8) -> Seq<u8> {
    if 65 <= b <= 90 {
        seq![(b + 32) as u8]
    } else if (97 <= b <= 122) || (48 <= b <= 57) || b == 45 || b == 95 {
        seq![b]
    } else if b == 32 || b == 9 {
        seq![45u8]
    } else {
        Seq::empty()
    }
}

/// Slug normalization of `t` from position `i` on.
pub open spec fn slug_from(t: Seq<u8>, i: int) -> Seq<u8>
    decreases t.len() - i,
{
    if i < 0 || i >= t.len() {
        Seq::empty()
    } else {
        slug_byte(t[i]) + slug_from(t, i + 1)
    }
}

/// The base slug of heading text `t`, before disambiguation.
pub open spec fn slug_of(t: Seq<u8>) -> Seq<u8> {
    slug_from(t, 0)
}

/// Whether some heading in `hs[j..]` already carries slug `c`.
pub open spec fn slug_used(hs: Seq<SHeading>, j: int, c: Seq<u8>) -> bool
    decreases hs.len() - j,
{
    if j < 0 || j >= hs.len() {
        false
    } else {
        hs[j].slug == c || slug_used(hs, j + 1, c)
    }
}

/// Length of the longest slug in `hs[j..]`.
pub open spec fn max_slug_len(hs: Seq<SHeading>, j: int) -> int
    decreases hs.len() - j,
{
    if j < 0 || j >= hs.len() {
        0
    } else {
        let rest = max_slug_len(hs, j + 1);
        if hs[j].slug.len() > rest {
            hs[j].slug.len() as int
        } else {
            rest
        }
    }
}

pub proof fn lemma_used_le_max(hs: Seq<SHeading>, j: int, c: Seq<u8>)
    requires
        slug_used(hs, j, c),
    ensures
        c.len() <= max_slug_len(hs, j),
    decreases hs.len() - j,
{
    if 0 <= j < hs.len() && hs[j].slug != c {
        lemma_used_le_max(hs, j + 1, c);
    }
}

/// Appends hyphens to `c` until no heading of `hs` carries it.
pub open spec fn pad_slug(c: Seq<u8>, hs: Seq<SHeading>) -> Seq<u8>
    decreases max_slug_len(hs, 0) + 1 - c.len(),
        via pad_slug_dec
{
    if !slug_used(hs, 0, c) {
        c
    } else {
        pad_slug(c.push(45), hs)
    }
}

#[via_fn]
proof fn pad_slug_dec(c: Seq<u8>, hs: Seq<SHeading>) {
    if slug_used(hs, 0, c) {
        lemma_used_le_max(hs, 0, c);
    }
}

/// The padded slug is fresh in `hs`.
pub proof fn lemma_pad_fresh(c: Seq<u8>, hs: Seq<SHeading>)
    ensures
        !slug_used(hs, 0, pad_slug(c, hs)),
    decreases max_slug_len(hs, 0) + 1 - c.len(),
{
    if slug_used(hs, 0, c) {
        lemma_used_le_max(hs, 0, c);
        lemma_pad_fresh(c.push(45), hs);
    }
}

/// Number of headings in `hs[j..]` whose base slug is `base`.
pub open spec fn count_base(hs: Seq<SHeading>, j: int, base: Seq<u8>) -> int
    decreases hs.len() - j,
{
    if j < 0 || j >= hs.len() {
        0
    } else {
        (if slug_of(hs[j].text) == base {
            1int
        } else {
            0int
        }) + count_base(hs, j + 1, base)
    }
}

/// The slug assigned to heading text `t` when the headings `done` have
/// already been extracted: the base slug, `-n` for the nth duplicate,
/// hyphen-padded on residual collision.
pub open spec fn assign_slug(done: Seq<SHeading>, t: Seq<u8>) -> Seq<u8> {
    let base = slug_of(t);
    let c = count_base(done, 0, base);
    let cand = if c == 0 {
        base
    } else {
        base + seq![45u8] + dec_digits(c + 1)
    };
    pad_slug(cand, done)
}

/// The heading extracted from heading block `b`, given the headings
/// already extracted.
pub open spec fn mk_heading(s: Seq<u8>, b: SBlock, done: Seq<SHeading>) -> SHeading {
    let level = heading_level_at(s, b.start);
    let text = trimmed(s, b.start + level, b.end);
    SHeading { level, text, slug: assign_slug(done, text), start: b.start }
}

/// Headings of the blocks `bs[k..]`, appended to `done`.
pub open spec fn sheadings_from(s: Seq<u8>, bs: Seq<SBlock>, k: int, done: Seq<SHeading>) -> Seq<
    SHeading,
>
    decreases bs.len() - k,
{
    if k < 0 || k >= bs.len() {
        done
    } else if bs[k].kind == BlockKind::Heading {
        sheadings_from(s, bs, k + 1, done.push(mk_heading(s, bs[k], done)))
    } else {
        sheadings_from(s, bs, k + 1, done)
    }
}

/// All headings of the input, in source order, with unique slugs.
pub open spec fn spec_headings(s: Seq<u8>) -> Seq<SHeading> {
    sheadings_from(s, spec_blocks(s), 0, Seq::empty())
}

/// No two headings carry the same slug.
pub open spec fn slugs_distinct(hs: Seq<SHeading>) -> bool {
    forall|i: int, j: int| 0 <= i < j < hs.len() ==> hs[i].slug != hs[j].slug
}

pub proof fn lemma_used_means_contains(hs: Seq<SHeading>, j: int, c: Seq<u8>)
    requires
        0 <= j,
    ensures
        slug_used(hs, j, c) <==> exists|k: int|
            j <= k < hs.len() && 0 <= k && (#[trigger] hs[k]).slug == c,
    decreases hs.len() - j,
{
    if 0 <= j < hs.len() {
        lemma_used_means_contains(hs, j + 1, c);
        if hs[j].slug == c {
            assert(j <= j < hs.len() && 0 <= j && hs[j].slug == c);
        } else {
            if exists|k: int| j <= k < hs.len() && 0 <= k && (#[trigger] hs[k]).slug == c {
                let k = choose|k: int| j <= k < hs.len() && 0 <= k && (#[trigger] hs[k]).slug == c;
                assert(k != j);
                assert(j + 1 <= k < hs.len() && 0 <= k && hs[k].slug == c);
            }
        }
    }
}

pub proof fn lemma_push_distinct(done: Seq<SHeading>, h: SHeading)
    requires
        slugs_distinct(done),
        !slug_used(done, 0, h.slug),
    ensures
        slugs_distinct(done.push(h)),
{
    lemma_used_means_contains(done, 0, h.slug);
    let hs = done.push(h);
    assert forall|i: int, j: int| 0 <= i < j < hs.len() implies hs[i].slug != hs[j].slug by {
        if j < done.len() {
            assert(hs[i] == done[i] && hs[j] == done[j]);
        } else {
            assert(hs[j] == h);
            assert(hs[i] == done[i]);
        }
    }
}

pub proof fn lemma_sheadings_distinct(s: Seq<u8>, bs: Seq<SBlock>, k: int, done: Seq<SHeading>)
    requires
        slugs_distinct(done),
    ensures
        slugs_distinct(sheadings_from(s, bs, k, done)),
    decreases bs.len() - k,
{
    if 0 <= k < bs.len() {
        if bs[k].kind == BlockKind::Heading {
            let h = mk_heading(s, bs[k], done);
            lemma_pad_fresh(
                {
                    let base = slug_of(trimmed(s, bs[k].start + heading_level_at(s, bs[k].start),
                        bs[k].end));
                    let c = count_base(done, 0, base);
                    if c == 0 {
                        base
                    } else {
                        base + seq![45u8] + dec_digits(c + 1)
                    }
                },
                done,
            );
            lemma_push_distinct(done, h);
            lemma_sheadings_distinct(s, bs, k + 1, done.push(h));
        } else {
            lemma_sheadings_distinct(s, bs, k + 1, done);
        }
    }
}

/// Heading slugs are unique within one document.
pub proof fn lemma_heading_slugs_unique(s: Seq<u8>)
    ensures
        slugs_distinct(spec_headings(s)),
{
    lemma_sheadings_distinct(s, spec_blocks(s), 0, Seq::empty());
}

/// The specification-level image of one extracted heading.
pub open spec fn hview(h: Heading) -> SHeading {
    SHeading {
        level: h.level as int,
        text: h.text@,
        slug: h.slug@,
        start: h.start_offset as int,
    }
}

/// The specification-level image of a heading sequence.
pub open spec fn hviews(hv: Seq<Heading>) -> Seq<SHeading> {
    hv.map_values(|h: Heading| hview(h))
}

proof fn lemma_hviews_push(hv: Seq<Heading>, h: Heading)
    ensures
        hviews(hv.push(h)) == hviews(hv).push(hview(h)),
{
    assert(hviews(hv.push(h)) =~= hviews(hv).push(hview(h)));
}

fn slug_from_x(t: &Vec<u8>, k: usize) -> (r: Vec<u8>)
    requires
        k <= t@.len(),
    ensures
        r@ == slug_from(t@, k as int),
    decreases t@.len() - k,
{
    if k >= t.len() {
        Vec::new()
    } else {
        let b = t[k];
        let mut v: Vec<u8> = Vec::new();
        if 65 <= b && b <= 90 {
            v.push(b + 32);
        } else if (97 <= b && b <= 122) || (48 <= b && b <= 57) || b == 45 || b == 95 {
            v.push(b);
        } else if b == 32 || b == 9 {
            v.push(45);
        }
        proof {
            assert(v@ =~= slug_byte(t@[k as int]));
        }
        let mut rest = slug_from_x(t, k + 1);
        v.append(&mut rest);
        v
    }
}

fn slug_used_x(done: &Vec<Heading>, j: usize, c: &Vec<u8>) -> (r: bool)
    requires
        j <= done@.len(),
    ensures
        r == slug_used(hviews(done@), j as int, c@),
    decreases done@.len() - j,
{
    if j >= done.len() {
        false
    } else {
        bytes_eq(&done[j].slug, c) || slug_used_x(done, j + 1, c)
    }
}

fn count_base_x(done: &Vec<Heading>, j: usize, base: &Vec<u8>) -> (r: usize)
    requires
        j <= done@.len(),
    ensures
        r as int == count_base(hviews(done@), j as int, base@),
        r <= done@.len() - j,
    decreases done@.len() - j,
{
    if j >= done.len() {
        0
    } else {
        let this_base = slug_from_x(&done[j].text, 0);
        let rest = count_base_x(done, j + 1, base);
        if bytes_eq(&this_base, base) {
            rest + 1
        } else {
            rest
        }
    }
}

fn pad_slug_x(cand: Vec<u8>, done: &Vec<Heading>) -> (r: Vec<u8>)
    ensures
        r@ == pad_slug(cand@, hviews(done@)),
    decreases max_slug_len(hviews(done@), 0) + 1 - cand@.len(),
{
    if !slug_used_x(done, 0, &cand) {
        cand
    } else {
        proof {
            lemma_used_le_max(hviews(done@), 0, cand@);
        }
        let mut c2 = cand;
        c2.push(45);
        pad_slug_x(c2, done)
    }
}

fn assign_slug_x(done: &Vec<Heading>, text: &Vec<u8>) -> (r: Vec<u8>)
    requires
        done@.len() < usize::MAX,
    ensures
        r@ == assign_slug(hviews(done@), text@),
{
    let base = slug_from_x(text, 0);
    let c = count_base_x(done, 0, &base);
    if c == 0 {
        pad_slug_x(base, done)
    } else {
        let mut v = base;
        v.push(45);
        push_decimal(&mut v, (c as u64) + 1);
        proof {
            let b = slug_of(text@);
            assert(b.push(45u8) =~= b + seq![45u8]);
        }
        pad_slug_x(v, done)
    }
}

fn mk_heading_x(s: &[u8], b: Block, done: &Vec<Heading>) -> (h: Heading)
    requires
        b.kind == BlockKind::Heading,
        block_shape_ok(
            s@,
            SBlock { kind: b.kind, start: b.start as int, end: b.end as int },
        ),
        done@.len() < usize::MAX,
    ensures
        hview(h) == mk_heading(
            s@,
            SBlock { kind: b.kind, start: b.start as int, end: b.end as int },
            hviews(done@),
        ),
{
    proof {
        lemma_line_end_bounds(s@, b.start as int);
        lemma_run_len_bounds(s@, b.start as int, line_end_at(s@, b.start as int), 35);
    }
    let level = heading_level_x(s, b.start);
    let text = trim_copy(s, b.start + level, b.end);
    let slug = assign_slug_x(done, &text);
    Heading { level, text, slug, start_offset: b.start }
}

fn collect_from(s: &[u8], blocks: &Vec<Block>, k: usize, done: Vec<Heading>) -> (r: Vec<Heading>)
    requires
        blocks_match(blocks@, spec_blocks(s@)),
        k <= blocks@.len(),
        done@.len() + blocks@.len() - k <= usize::MAX,
    ensures
        hviews(r@) == sheadings_from(s@, spec_blocks(s@), k as int, hviews(done@)),
    decreases blocks@.len() - k,
{
    proof {
        lemma_blocks_shape(s@);
    }
    if k >= blocks.len() {
        done
    } else {
        let b = blocks[k];
        if b.kind == BlockKind::Heading {
            proof {
                assert(block_shape_ok(s@, spec_blocks(s@)[k as int]));
            }
            let h = mk_heading_x(s, b, &done);
            let ghost pre = done@;
            let mut done2 = done;
            done2.push(h);
            proof {
                lemma_hviews_push(pre, h);
                assert(SBlock { kind: b.kind, start: b.start as int, end: b.end as int }
                    == spec_blocks(s@)[k as int]);
            }
            collect_from(s, blocks, k + 1, done2)
        } else {
            collect_from(s, blocks, k + 1, done)
        }
    }
}

/// Extracts every heading of the input, in source order, with level,
/// trimmed text, unique slug and byte offset.
pub fn extract_headings(s: &[u8]) -> (r: Vec<Heading>)
    ensures
        hviews(r@) == spec_headings(s@),
        slugs_distinct(hviews(r@)),
{
    let blocks = crate::blocks::scan_blocks(s);
    headings_of_blocks(s, &blocks)
}

/// Heading extraction over an existing block scan.
pub fn headings_of_blocks(s: &[u8], blocks: &Vec<Block>) -> (r: Vec<Heading>)
    requires
        blocks_match(blocks@, spec_blocks(s@)),
    ensures
        hviews(r@) == spec_headings(s@),
        slugs_distinct(hviews(r@)),
{
    proof {
        lemma_heading_slugs_unique(s@);
        assert(hviews(Seq::<Heading>::empty()) =~= Seq::<SHeading>::empty());
    }
    let n = blocks.len();
    proof {
        assert(blocks@.len() == n);
    }
    collect_from(s, blocks, 0, Vec::new())
}

} // verus!
