//! Inline scanning for links, reference definitions, link classification,
//! and backlink resolution against an external document index.
//!
//! Paragraph, heading and list spans are scanned for the inline form
//! `[display](target)` and the reference form `[display][label]`; labels
//! resolve against `[label]: target` declaration lines collected from all
//! paragraph blocks first, so forward references work.  A construct that
//! opens but never closes before its span ends is reported as a malformed
//! link.  Code block content is never scanned.

use vstd::prelude::*;
use crate::blocks::{Block, BlockKind, SBlock, blocks_match, spec_blocks, line_end_at,
    lemma_line_end_bounds, block_shape_ok, lemma_blocks_shape};
use crate::model::{Link, LinkKind, DocIndex, BacklinkEdge};
use crate::text::{trimmed, trim_copy, copy_range, bytes_eq};

verus! {

/// A link at the specification level.
pub struct SLink {
    pub kind: LinkKind,
    pub target: Seq<u8>,
    pub display: Seq<u8>,
    pub start: int,
}

/// `lv` is the executable image of the specification links `ls`.
pub open spec fn links_match(lv: Seq<Link>, ls: Seq<SLink>) -> bool {
    &&& lv.len() == ls.len()
    &&& forall|k: int|
        0 <= k < ls.len() ==> {
            &&& (#[trigger] lv[k]).kind == ls[k].kind
            &&& lv[k].target@ == ls[k].target
            &&& lv[k].display_text@ == ls[k].display
            &&& lv[k].start_offset as int == ls[k].start
        }
}

proof fn lemma_lmatch_cons(l: Link, sl: SLink, rest: Seq<Link>, srest: Seq<SLink>)
    requires
        l.kind == sl.kind,
        l.target@ == sl.target,
        l.display_text@ == sl.display,
        l.start_offset as int == sl.start,
        links_match(rest, srest),
    ensures
        links_match(seq![l] + rest, seq![sl] + srest),
{
    let lv = seq![l] + rest;
    let ls = seq![sl] + srest;
    assert forall|k: int| 0 <= k < ls.len() implies {
        &&& (#[trigger] lv[k]).kind == ls[k].kind
        &&& lv[k].target@ == ls[k].target
        &&& lv[k].display_text@ == ls[k].display
        &&& lv[k].start_offset as int == ls[k].start
    } by {
        if k > 0 {
            assert(lv[k] == rest[k - 1]);
            assert(ls[k] == srest[k - 1]);
        }
    }
}

proof fn lemma_lmatch_append(a: Seq<Link>, sa: Seq<SLink>, b: Seq<Link>, sb: Seq<SLink>)
    requires
        links_match(a, sa),
        links_match(b, sb),
    ensures
        links_match(a + b, sa + sb),
{
    let lv = a + b;
    let ls = sa + sb;
    assert forall|k: int| 0 <= k < ls.len() implies {
        &&& (#[trigger] lv[k]).kind == ls[k].kind
        &&& lv[k].target@ == ls[k].target
        &&& lv[k].display_text@ == ls[k].display
        &&& lv[k].start_offset as int == ls[k].start
    } by {
        if k < a.len() {
            assert(lv[k] == a[k]);
            assert(ls[k] == sa[k]);
        } else {
            let j = k - a.len();
            assert(lv[k] == b[j]);
            assert(ls[k] == sb[j]);
        }
    }
}

/// First position of byte `b` in `[i, e)`, else `e`.
pub open spec fn find_byte(s: Seq<u8>, i: int, e: int, b: u8) -> int
    decreases e - i,
{
    if i >= e {
        e
    } else if s[i] == b {
        i
    } else {
        find_byte(s, i + 1, e, b)
    }
}

pub proof fn lemma_find_byte_bounds(s: Seq<u8>, i: int, e: int, b: u8)
    requires
        i <= e,
    ensures
        i <= find_byte(s, i, e, b) <= e,
    decreases e - i,
{
    if i < e && s[i] != b {
        lemma_find_byte_bounds(s, i + 1, e, b);
    }
}

pub(crate) fn find_byte_x(s: &[u8], i: usize, e: usize, b: u8) -> (r: usize)
    requires
        i <= e <= s@.len(),
    ensures
        r as int == find_byte(s@, i as int, e as int, b),
        i <= r <= e,
    decreases e - i,
{
    if i >= e {
        e
    } else if s[i] == b {
        i
    } else {
        find_byte_x(s, i + 1, e, b)
    }
}

pub open spec fn is_alpha(b: u8) -> bool {
    (65 <= b <= 90) || (97 <= b <= 122)
}

/// After an initial letter, a URI scheme runs over letters, digits, `+`,
/// `-` and `.` up to a `:`.
pub open spec fn scheme_rest(t: Seq<u8>, i: int) -> bool
    decreases t.len() - i,
{
    if i < 0 || i >= t.len() {
        false
    } else if t[i] == 58 {
        true
    } else {
        (is_alpha(t[i]) || (48 <= t[i] <= 57) || t[i] == 43 || t[i] == 45 || t[i] == 46)
            && scheme_rest(t, i + 1)
    }
}

/// The target carries a URI scheme: a letter, then scheme bytes, then `:`.
pub open spec fn has_scheme(t: Seq<u8>) -> bool {
    t.len() > 0 && is_alpha(t[0]) && scheme_rest(t, 1)
}

/// Classification of a link target: `#`-prefixed targets are in-page
/// anchors, scheme-carrying targets are external, the rest are internal
/// document references.
pub open spec fn classify(t: Seq<u8>) -> LinkKind {
    if t.len() > 0 && t[0] == 35 {
        LinkKind::Anchor
    } else if has_scheme(t) {
        LinkKind::External
    } else {
        LinkKind::Internal
    }
}

fn scheme_rest_x(t: &Vec<u8>, i: usize) -> (r: bool)
    requires
        i <= t@.len(),
    ensures
        r == scheme_rest(t@, i as int),
    decreases t@.len() - i,
{
    if i >= t.len() {
        false
    } else if t[i] == 58 {
        true
    } else {
        let b = t[i];
        ((65 <= b && b <= 90) || (97 <= b && b <= 122) || (48 <= b && b <= 57) || b == 43 || b == 45
            || b == 46) && scheme_rest_x(t, i + 1)
    }
}

/// Classifies one raw link target.
pub fn classify_target(t: &Vec<u8>) -> (r: LinkKind)
    ensures
        r == classify(t@),
{
    if t.len() > 0 && t[0] == 35 {
        LinkKind::Anchor
    } else if t.len() > 0 && (
        (65 <= t[0] && t[0] <= 90) || (97 <= t[0] && t[0] <= 122)
    ) && scheme_rest_x(t, 1) {
        LinkKind::External
    } else {
        LinkKind::Internal
    }
}

/// The reference declaration of the line at `i`, if the line is
/// `[label]: target`.
pub open spec fn def_of_line(s: Seq<u8>, i: int, stop: int) -> Option<(Seq<u8>, Seq<u8>)> {
    if i < stop && s[i] == 91 {
        let q = find_byte(s, i + 1, stop, 93);
        if q < stop - 1 && s[q + 1] == 58 {
            Some((s.subrange(i + 1, q), trimmed(s, q + 2, stop)))
        } else {
            None
        }
    } else {
        None
    }
}

/// Reference declarations of the paragraph lines in `[i, end)`.
pub open spec fn defs_in(s: Seq<u8>, i: int, end: int) -> Seq<(Seq<u8>, Seq<u8>)>
    decreases end - i,
        via defs_in_dec
{
    if i < 0 || i >= end {
        Seq::empty()
    } else {
        let e = line_end_at(s, i);
        let stop = if e > end || e <= i {
            end
        } else {
            e
        };
        (match def_of_line(s, i, stop) {
            Some(d) => seq![d],
            None => Seq::empty(),
        }) + defs_in(s, stop, end)
    }
}

#[via_fn]
proof fn defs_in_dec(s: Seq<u8>, i: int, end: int) {
    lemma_line_end_bounds(s, i);
}

/// All reference declarations of the document's paragraph blocks, in order.
pub open spec fn defs_from(s: Seq<u8>, bs: Seq<SBlock>, k: int) -> Seq<(Seq<u8>, Seq<u8>)>
    decreases bs.len() - k,
{
    if k < 0 || k >= bs.len() {
        Seq::empty()
    } else if bs[k].kind == BlockKind::Paragraph {
        defs_in(s, bs[k].start, bs[k].end) + defs_from(s, bs, k + 1)
    } else {
        defs_from(s, bs, k + 1)
    }
}

pub open spec fn spec_defs(s: Seq<u8>) -> Seq<(Seq<u8>, Seq<u8>)> {
    defs_from(s, spec_blocks(s), 0)
}

/// First declared target for `label` in `ds[j..]`.
pub open spec fn lookup_def(ds: Seq<(Seq<u8>, Seq<u8>)>, j: int, label: Seq<u8>) -> Option<Seq<u8>>
    decreases ds.len() - j,
{
    if j < 0 || j >= ds.len() {
        None
    } else if ds[j].0 == label {
        Some(ds[j].1)
    } else {
        lookup_def(ds, j + 1, label)
    }
}

/// The links of the span `[i, end)`, given the declaration list.
pub open spec fn slinks_in(s: Seq<u8>, i: int, end: int, ds: Seq<(Seq<u8>, Seq<u8>)>) -> Seq<SLink>
    decreases end - i,
        via slinks_in_dec
{
    if i < 0 || i >= end {
        Seq::empty()
    } else if s[i] != 91 {
        slinks_in(s, i + 1, end, ds)
    } else {
        let q = find_byte(s, i + 1, end, 93);
        if q >= end {
            seq![
                SLink {
                    kind: LinkKind::Malformed,
                    target: Seq::empty(),
                    display: s.subrange(i + 1, end),
                    start: i,
                },
            ]
        } else if q < end - 1 && s[q + 1] == 40 {
            let r = find_byte(s, q + 2, end, 41);
            if r >= end {
                seq![
                    SLink {
                        kind: LinkKind::Malformed,
                        target: s.subrange(q + 2, end),
                        display: s.subrange(i + 1, q),
                        start: i,
                    },
                ]
            } else {
                seq![
                    SLink {
                        kind: classify(s.subrange(q + 2, r)),
                        target: s.subrange(q + 2, r),
                        display: s.subrange(i + 1, q),
                        start: i,
                    },
                ] + slinks_in(s, r + 1, end, ds)
            }
        } else if q < end - 1 && s[q + 1] == 91 {
            let r2 = find_byte(s, q + 2, end, 93);
            if r2 >= end {
                seq![
                    SLink {
                        kind: LinkKind::Malformed,
                        target: Seq::empty(),
                        display: s.subrange(i + 1, q),
                        start: i,
                    },
                ]
            } else {
                match lookup_def(ds, 0, s.subrange(q + 2, r2)) {
                    Some(t) => seq![
                        SLink {
                            kind: classify(t),
                            target: t,
                            display: s.subrange(i + 1, q),
                            start: i,
                        },
                    ] + slinks_in(s, r2 + 1, end, ds),
                    None => slinks_in(s, q + 1, end, ds),
                }
            }
        } else {
            slinks_in(s, q + 1, end, ds)
        }
    }
}

#[via_fn]
proof fn slinks_in_dec(s: Seq<u8>, i: int, end: int, ds: Seq<(Seq<u8>, Seq<u8>)>) {
    if 0 <= i < end {
        lemma_find_byte_bounds(s, i + 1, end, 93);
        let q = find_byte(s, i + 1, end, 93);
        if q + 1 < end {
            lemma_find_byte_bounds(s, q + 2, end, 41);
            lemma_find_byte_bounds(s, q + 2, end, 93);
        }
    }
}

/// The links of the blocks `bs[k..]`: paragraph, heading and list spans
/// are scanned, code and frontmatter spans are not.
pub open spec fn links_from(s: Seq<u8>, bs: Seq<SBlock>, k: int, ds: Seq<(Seq<u8>, Seq<u8>)>) -> Seq<
    SLink,
>
    decreases bs.len() - k,
{
    if k < 0 || k >= bs.len() {
        Seq::empty()
    } else if bs[k].kind == BlockKind::Paragraph || bs[k].kind == BlockKind::Heading || bs[k].kind
        == BlockKind::List {
        slinks_in(s, bs[k].start, bs[k].end, ds) + links_from(s, bs, k + 1, ds)
    } else {
        links_from(s, bs, k + 1, ds)
    }
}

/// All links of the input, in source order.
pub open spec fn spec_links(s: Seq<u8>) -> Seq<SLink> {
    links_from(s, spec_blocks(s), 0, spec_defs(s))
}

/// The specification-level image of a declaration list.
pub open spec fn dviews(ds: Seq<(Vec<u8>, Vec<u8>)>) -> Seq<(Seq<u8>, Seq<u8>)> {
    ds.map_values(|p: (Vec<u8>, Vec<u8>)| (p.0@, p.1@))
}

proof fn lemma_dviews_append(a: Seq<(Vec<u8>, Vec<u8>)>, b: Seq<(Vec<u8>, Vec<u8>)>)
    ensures
        dviews(a + b) == dviews(a) + dviews(b),
{
    assert(dviews(a + b) =~= dviews(a) + dviews(b));
}

fn defs_in_x(s: &[u8], i: usize, end: usize) -> (r: Vec<(Vec<u8>, Vec<u8>)>)
    requires
        end <= s@.len(),
    ensures
        dviews(r@) == defs_in(s@, i as int, end as int),
    decreases end - i,
{
    if i >= end {
        proof {
            assert(dviews(Seq::<(Vec<u8>, Vec<u8>)>::empty()) =~= Seq::<(Seq<u8>, Seq<
                u8,
            >)>::empty());
        }
        Vec::new()
    } else {
        proof {
            lemma_line_end_bounds(s@, i as int);
        }
        let e0 = crate::blocks::line_end_x(s, i);
        let stop = if e0 > end || e0 <= i {
            end
        } else {
            e0
        };
        let mut v: Vec<(Vec<u8>, Vec<u8>)> = Vec::new();
        if s[i] == 91 {
            let q = find_byte_x(s, i + 1, stop, 93);
            if q < stop - 1 && s[q + 1] == 58 {
                v.push((copy_range(s, i + 1, q), trim_copy(s, q + 2, stop)));
            }
        }
        let ghost head = v@;
        let mut rest = defs_in_x(s, stop, end);
        let ghost tail = rest@;
        v.append(&mut rest);
        proof {
            lemma_dviews_append(head, tail);
            assert(dviews(head) =~= (match def_of_line(s@, i as int, stop as int) {
                Some(d) => seq![d],
                None => Seq::<(Seq<u8>, Seq<u8>)>::empty(),
            }));
        }
        v
    }
}

fn defs_of_blocks(s: &[u8], blocks: &Vec<Block>, k: usize) -> (r: Vec<(Vec<u8>, Vec<u8>)>)
    requires
        blocks_match(blocks@, spec_blocks(s@)),
        k <= blocks@.len(),
    ensures
        dviews(r@) == defs_from(s@, spec_blocks(s@), k as int),
    decreases blocks@.len() - k,
{
    proof {
        lemma_blocks_shape(s@);
    }
    if k >= blocks.len() {
        proof {
            assert(dviews(Seq::<(Vec<u8>, Vec<u8>)>::empty()) =~= Seq::<(Seq<u8>, Seq<
                u8,
            >)>::empty());
        }
        Vec::new()
    } else {
        let b = blocks[k];
        if b.kind == BlockKind::Paragraph {
            proof {
                assert(block_shape_ok(s@, spec_blocks(s@)[k as int]));
            }
            let mut v = defs_in_x(s, b.start, b.end);
            let ghost head = v@;
            let mut rest = defs_of_blocks(s, blocks, k + 1);
            let ghost tail = rest@;
            v.append(&mut rest);
            proof {
                lemma_dviews_append(head, tail);
            }
            v
        } else {
            defs_of_blocks(s, blocks, k + 1)
        }
    }
}

fn lookup_def_x(ds: &Vec<(Vec<u8>, Vec<u8>)>, j: usize, label: &Vec<u8>) -> (r: Option<Vec<u8>>)
    requires
        j <= ds@.len(),
    ensures
        (match r {
            Option::None => lookup_def(dviews(ds@), j as int, label@).is_none(),
            Option::Some(t) => lookup_def(dviews(ds@), j as int, label@) == Some(t@),
        }),
    decreases ds@.len() - j,
{
    if j >= ds.len() {
        None
    } else if bytes_eq(&ds[j].0, label) {
        Some(crate::text::clone_bytes(&ds[j].1))
    } else {
        lookup_def_x(ds, j + 1, label)
    }
}

fn links_in_x(s: &[u8], i: usize, end: usize, ds: &Vec<(Vec<u8>, Vec<u8>)>) -> (r: Vec<Link>)
    requires
        end <= s@.len(),
    ensures
        links_match(r@, slinks_in(s@, i as int, end as int, dviews(ds@))),
    decreases end - i,
{
    if i >= end {
        Vec::new()
    } else if s[i] != 91 {
        links_in_x(s, i + 1, end, ds)
    } else {
        let q = find_byte_x(s, i + 1, end, 93);
        if q >= end {
            let l = Link {
                kind: LinkKind::Malformed,
                target: Vec::new(),
                display_text: copy_range(s, i + 1, end),
                start_offset: i,
            };
            let mut v: Vec<Link> = Vec::new();
            v.push(l);
            proof {
                assert(v@ =~= seq![l]);
                lemma_lmatch_cons(
                    l,
                    slinks_in(s@, i as int, end as int, dviews(ds@))[0],
                    Seq::empty(),
                    Seq::empty(),
                );
                assert(seq![slinks_in(s@, i as int, end as int, dviews(ds@))[0]] + Seq::<
                    SLink,
                >::empty() =~= slinks_in(s@, i as int, end as int, dviews(ds@)));
            }
            v
        } else if q < end - 1 && s[q + 1] == 40 {
            let r2 = find_byte_x(s, q + 2, end, 41);
            if r2 >= end {
                let l = Link {
                    kind: LinkKind::Malformed,
                    target: copy_range(s, q + 2, end),
                    display_text: copy_range(s, i + 1, q),
                    start_offset: i,
                };
                let mut v: Vec<Link> = Vec::new();
                v.push(l);
                proof {
                    assert(v@ =~= seq![l]);
                    lemma_lmatch_cons(
                        l,
                        slinks_in(s@, i as int, end as int, dviews(ds@))[0],
                        Seq::empty(),
                        Seq::empty(),
                    );
                    assert(seq![slinks_in(s@, i as int, end as int, dviews(ds@))[0]] + Seq::<
                        SLink,
                    >::empty() =~= slinks_in(s@, i as int, end as int, dviews(ds@)));
                }
                v
            } else {
                let target = copy_range(s, q + 2, r2);
                let kind = classify_target(&target);
                let l = Link {
                    kind,
                    target,
                    display_text: copy_range(s, i + 1, q),
                    start_offset: i,
                };
                let mut v: Vec<Link> = Vec::new();
                v.push(l);
                let mut rest = links_in_x(s, r2 + 1, end, ds);
                let ghost tail = rest@;
                v.append(&mut rest);
                proof {
                    let sl = SLink {
                        kind: classify(s@.subrange(q + 2, r2 as int)),
                        target: s@.subrange(q + 2, r2 as int),
                        display: s@.subrange(i + 1, q as int),
                        start: i as int,
                    };
                    assert(v@ =~= seq![l] + tail);
                    lemma_lmatch_cons(
                        l,
                        sl,
                        tail,
                        slinks_in(s@, r2 + 1, end as int, dviews(ds@)),
                    );
                }
                v
            }
        } else if q < end - 1 && s[q + 1] == 91 {
            let r2 = find_byte_x(s, q + 2, end, 93);
            if r2 >= end {
                let l = Link {
                    kind: LinkKind::Malformed,
                    target: Vec::new(),
                    display_text: copy_range(s, i + 1, q),
                    start_offset: i,
                };
                let mut v: Vec<Link> = Vec::new();
                v.push(l);
                proof {
                    assert(v@ =~= seq![l]);
                    lemma_lmatch_cons(
                        l,
                        slinks_in(s@, i as int, end as int, dviews(ds@))[0],
                        Seq::empty(),
                        Seq::empty(),
                    );
                    assert(seq![slinks_in(s@, i as int, end as int, dviews(ds@))[0]] + Seq::<
                        SLink,
                    >::empty() =~= slinks_in(s@, i as int, end as int, dviews(ds@)));
                }
                v
            } else {
                let label = copy_range(s, q + 2, r2);
                match lookup_def_x(ds, 0, &label) {
                    Option::Some(target) => {
                        let kind = classify_target(&target);
                        let ghost starget = target@;
                        let l = Link {
                            kind,
                            target,
                            display_text: copy_range(s, i + 1, q),
                            start_offset: i,
                        };
                        let mut v: Vec<Link> = Vec::new();
                        v.push(l);
                        let mut rest = links_in_x(s, r2 + 1, end, ds);
                        let ghost tail = rest@;
                        v.append(&mut rest);
                        proof {
                            let sl = SLink {
                                kind: classify(starget),
                                target: starget,
                                display: s@.subrange(i + 1, q as int),
                                start: i as int,
                            };
                            assert(v@ =~= seq![l] + tail);
                            lemma_lmatch_cons(
                                l,
                                sl,
                                tail,
                                slinks_in(s@, r2 + 1, end as int, dviews(ds@)),
                            );
                        }
                        v
                    },
                    Option::None => links_in_x(s, q + 1, end, ds),
                }
            }
        } else {
            links_in_x(s, q + 1, end, ds)
        }
    }
}

fn links_of_blocks_rec(s: &[u8], blocks: &Vec<Block>, k: usize, ds: &Vec<(Vec<u8>, Vec<u8>)>) -> (r:
    Vec<Link>)
    requires
        blocks_match(blocks@, spec_blocks(s@)),
        k <= blocks@.len(),
    ensures
        links_match(r@, links_from(s@, spec_blocks(s@), k as int, dviews(ds@))),
    decreases blocks@.len() - k,
{
    proof {
        lemma_blocks_shape(s@);
    }
    if k >= blocks.len() {
        Vec::new()
    } else {
        let b = blocks[k];
        if b.kind == BlockKind::Paragraph || b.kind == BlockKind::Heading || b.kind
            == BlockKind::List {
            proof {
                assert(block_shape_ok(s@, spec_blocks(s@)[k as int]));
            }
            let mut v = links_in_x(s, b.start, b.end, ds);
            let ghost head = v@;
            let mut rest = links_of_blocks_rec(s, blocks, k + 1, ds);
            let ghost tail = rest@;
            v.append(&mut rest);
            proof {
                lemma_lmatch_append(
                    head,
                    slinks_in(s@, b.start as int, b.end as int, dviews(ds@)),
                    tail,
                    links_from(s@, spec_blocks(s@), k + 1, dviews(ds@)),
                );
            }
            v
        } else {
            links_of_blocks_rec(s, blocks, k + 1, ds)
        }
    }
}

/// Link extraction over an existing block scan.
pub fn links_of_blocks(s: &[u8], blocks: &Vec<Block>) -> (r: Vec<Link>)
    requires
        blocks_match(blocks@, spec_blocks(s@)),
    ensures
        links_match(r@, spec_links(s@)),
{
    let ds = defs_of_blocks(s, blocks, 0);
    links_of_blocks_rec(s, blocks, 0, &ds)
}

/// Extracts every link of the input, in source order: inline and
/// reference-style links with their classification, plus malformed
/// constructs reported for visibility.
pub fn extract_links(s: &[u8]) -> (r: Vec<Link>)
    ensures
        links_match(r@, spec_links(s@)),
{
    let blocks = crate::blocks::scan_blocks(s);
    links_of_blocks(s, &blocks)
}

/// Syntactic validation verdict for each link: everything but a malformed
/// construct is well-formed.
pub fn validate_links(links: &Vec<Link>) -> (r: Vec<bool>)
    ensures
        r@.len() == links@.len(),
        forall|k: int|
            0 <= k < links@.len() ==> r@[k] == ((#[trigger] links@[k]).kind != LinkKind::Malformed),
{
    let mut r: Vec<bool> = Vec::new();
    let mut i: usize = 0;
    while i < links.len()
        invariant
            i <= links@.len(),
            r@.len() == i,
            forall|k: int|
                0 <= k < i ==> r@[k] == ((#[trigger] links@[k]).kind != LinkKind::Malformed),
        decreases links@.len() - i,
    {
        let ok = match links[i].kind {
            LinkKind::Malformed => false,
            _ => true,
        };
        r.push(ok);
        i = i + 1;
    }
    r
}

/// A backlink edge at the specification level.
pub struct SEdge {
    pub source: u64,
    pub target: u64,
    pub link_target: Seq<u8>,
}

/// The specification-level image of a link sequence.
pub open spec fn lviews(lv: Seq<Link>) -> Seq<SLink> {
    lv.map_values(
        |l: Link|
            SLink {
                kind: l.kind,
                target: l.target@,
                display: l.display_text@,
                start: l.start_offset as int,
            },
    )
}

pub proof fn lemma_links_match_views(lv: Seq<Link>, ls: Seq<SLink>)
    requires
        links_match(lv, ls),
    ensures
        lviews(lv) == ls,
{
    assert(lviews(lv) =~= ls);
}

/// The specification-level image of an index entry list.
pub open spec fn iviews(es: Seq<(Vec<u8>, u64)>) -> Seq<(Seq<u8>, u64)> {
    es.map_values(|p: (Vec<u8>, u64)| (p.0@, p.1))
}

/// The specification-level image of an edge list.
pub open spec fn eviews(ev: Seq<BacklinkEdge>) -> Seq<SEdge> {
    ev.map_values(
        |e: BacklinkEdge| SEdge { source: e.source, target: e.target, link_target: e.link_target@ },
    )
}

/// First index entry whose key is `t`, scanning `es[j..]`.
pub open spec fn resolve_idx(es: Seq<(Seq<u8>, u64)>, j: int, t: Seq<u8>) -> Option<u64>
    decreases es.len() - j,
{
    if j < 0 || j >= es.len() {
        None
    } else if es[j].0 == t {
        Some(es[j].1)
    } else {
        resolve_idx(es, j + 1, t)
    }
}

/// `e` occurs in `es[j..]`.
pub open spec fn edge_in(es: Seq<SEdge>, j: int, e: SEdge) -> bool
    decreases es.len() - j,
{
    if j < 0 || j >= es.len() {
        false
    } else {
        es[j] == e || edge_in(es, j + 1, e)
    }
}

/// No edge occurs twice.
pub open spec fn distinct_edges(es: Seq<SEdge>) -> bool {
    forall|i: int, j: int| 0 <= i < j < es.len() ==> es[i] != es[j]
}

/// The backlink edges of the links `ls[k..]`, accumulated onto `acc`:
/// one edge per resolving internal link, duplicates collapsed.
pub open spec fn bl_from(
    ls: Seq<SLink>,
    k: int,
    idx: Seq<(Seq<u8>, u64)>,
    src: u64,
    acc: Seq<SEdge>,
) -> Seq<SEdge>
    decreases ls.len() - k,
{
    if k < 0 || k >= ls.len() {
        acc
    } else if ls[k].kind == LinkKind::Internal {
        match resolve_idx(idx, 0, ls[k].target) {
            Some(d) => {
                let e = SEdge { source: src, target: d, link_target: ls[k].target };
                if edge_in(acc, 0, e) {
                    bl_from(ls, k + 1, idx, src, acc)
                } else {
                    bl_from(ls, k + 1, idx, src, acc.push(e))
                }
            },
            None => bl_from(ls, k + 1, idx, src, acc),
        }
    } else {
        bl_from(ls, k + 1, idx, src, acc)
    }
}

/// All backlink edges of a document's links against an index.
pub open spec fn spec_backlinks(ls: Seq<SLink>, idx: Seq<(Seq<u8>, u64)>, src: u64) -> Seq<SEdge> {
    bl_from(ls, 0, idx, src, Seq::empty())
}

proof fn lemma_edge_in_push_old(es: Seq<SEdge>, j: int, e: SEdge, x: SEdge)
    requires
        edge_in(es, j, e),
    ensures
        edge_in(es.push(x), j, e),
    decreases es.len() - j,
{
    if 0 <= j < es.len() {
        assert(es.push(x)[j] == es[j]);
        if es[j] != e {
            lemma_edge_in_push_old(es, j + 1, e, x);
        }
    }
}

proof fn lemma_edge_in_push_new(es: Seq<SEdge>, j: int, x: SEdge)
    requires
        0 <= j <= es.len(),
    ensures
        edge_in(es.push(x), j, x),
    decreases es.len() - j,
{
    if j == es.len() {
        assert(es.push(x)[j] == x);
    } else {
        lemma_edge_in_push_new(es, j + 1, x);
    }
}

proof fn lemma_edge_in_push_rev(es: Seq<SEdge>, j: int, e: SEdge, x: SEdge)
    requires
        edge_in(es.push(x), j, e),
        e != x,
        0 <= j,
    ensures
        edge_in(es, j, e),
    decreases es.len() - j,
{
    if j < es.len() {
        assert(es.push(x)[j] == es[j]);
        if es[j] != e {
            lemma_edge_in_push_rev(es, j + 1, e, x);
        }
    } else if j == es.len() {
        assert(es.push(x)[j] == x);
        assert(!edge_in(es.push(x), j + 1, e));
    } else {
        assert(!edge_in(es.push(x), j, e));
    }
}

proof fn lemma_edge_in_iff(es: Seq<SEdge>, j: int, e: SEdge)
    requires
        0 <= j,
    ensures
        edge_in(es, j, e) <==> exists|k: int| j <= k < es.len() && #[trigger] es[k] == e,
    decreases es.len() - j,
{
    if j < es.len() {
        lemma_edge_in_iff(es, j + 1, e);
        if es[j] == e {
            assert(j <= j < es.len() && es[j] == e);
        } else {
            if exists|k: int| j <= k < es.len() && #[trigger] es[k] == e {
                let k = choose|k: int| j <= k < es.len() && #[trigger] es[k] == e;
                assert(k != j);
                assert(j + 1 <= k < es.len() && es[k] == e);
            }
        }
    }
}

proof fn lemma_bl_mono(ls: Seq<SLink>, k: int, idx: Seq<(Seq<u8>, u64)>, src: u64, acc: Seq<SEdge>, e: SEdge)
    requires
        edge_in(acc, 0, e),
    ensures
        edge_in(bl_from(ls, k, idx, src, acc), 0, e),
    decreases ls.len() - k,
{
    if 0 <= k < ls.len() {
        if ls[k].kind == LinkKind::Internal {
            match resolve_idx(idx, 0, ls[k].target) {
                Some(d) => {
                    let x = SEdge { source: src, target: d, link_target: ls[k].target };
                    if edge_in(acc, 0, x) {
                        lemma_bl_mono(ls, k + 1, idx, src, acc, e);
                    } else {
                        lemma_edge_in_push_old(acc, 0, e, x);
                        lemma_bl_mono(ls, k + 1, idx, src, acc.push(x), e);
                    }
                },
                None => {
                    lemma_bl_mono(ls, k + 1, idx, src, acc, e);
                },
            }
        } else {
            lemma_bl_mono(ls, k + 1, idx, src, acc, e);
        }
    }
}

proof fn lemma_bl_distinct(ls: Seq<SLink>, k: int, idx: Seq<(Seq<u8>, u64)>, src: u64, acc: Seq<SEdge>)
    requires
        distinct_edges(acc),
    ensures
        distinct_edges(bl_from(ls, k, idx, src, acc)),
    decreases ls.len() - k,
{
    if 0 <= k < ls.len() {
        if ls[k].kind == LinkKind::Internal {
            match resolve_idx(idx, 0, ls[k].target) {
                Some(d) => {
                    let x = SEdge { source: src, target: d, link_target: ls[k].target };
                    if edge_in(acc, 0, x) {
                        lemma_bl_distinct(ls, k + 1, idx, src, acc);
                    } else {
                        lemma_edge_in_iff(acc, 0, x);
                        let acc2 = acc.push(x);
                        assert forall|i: int, j: int| 0 <= i < j < acc2.len() implies acc2[i]
                            != acc2[j] by {
                            if j < acc.len() {
                                assert(acc2[i] == acc[i] && acc2[j] == acc[j]);
                            } else {
                                assert(acc2[j] == x);
                                assert(acc2[i] == acc[i]);
                            }
                        }
                        lemma_bl_distinct(ls, k + 1, idx, src, acc2);
                    }
                },
                None => {
                    lemma_bl_distinct(ls, k + 1, idx, src, acc);
                },
            }
        } else {
            lemma_bl_distinct(ls, k + 1, idx, src, acc);
        }
    }
}

proof fn lemma_bl_complete(
    ls: Seq<SLink>,
    k: int,
    idx: Seq<(Seq<u8>, u64)>,
    src: u64,
    acc: Seq<SEdge>,
    k0: int,
)
    requires
        0 <= k <= k0 < ls.len(),
        ls[k0].kind == LinkKind::Internal,
        resolve_idx(idx, 0, ls[k0].target).is_some(),
    ensures
        edge_in(
            bl_from(ls, k, idx, src, acc),
            0,
            SEdge {
                source: src,
                target: resolve_idx(idx, 0, ls[k0].target).unwrap(),
                link_target: ls[k0].target,
            },
        ),
    decreases ls.len() - k,
{
    let d0 = resolve_idx(idx, 0, ls[k0].target).unwrap();
    let e0 = SEdge { source: src, target: d0, link_target: ls[k0].target };
    if k == k0 {
        let x = e0;
        if edge_in(acc, 0, x) {
            lemma_bl_mono(ls, k + 1, idx, src, acc, x);
        } else {
            lemma_edge_in_push_new(acc, 0, x);
            lemma_bl_mono(ls, k + 1, idx, src, acc.push(x), x);
        }
    } else {
        if ls[k].kind == LinkKind::Internal {
            match resolve_idx(idx, 0, ls[k].target) {
                Some(d) => {
                    let x = SEdge { source: src, target: d, link_target: ls[k].target };
                    if edge_in(acc, 0, x) {
                        lemma_bl_complete(ls, k + 1, idx, src, acc, k0);
                    } else {
                        lemma_bl_complete(ls, k + 1, idx, src, acc.push(x), k0);
                    }
                },
                None => {
                    lemma_bl_complete(ls, k + 1, idx, src, acc, k0);
                },
            }
        } else {
            lemma_bl_complete(ls, k + 1, idx, src, acc, k0);
        }
    }
}

proof fn lemma_bl_sound(
    ls: Seq<SLink>,
    k: int,
    idx: Seq<(Seq<u8>, u64)>,
    src: u64,
    acc: Seq<SEdge>,
    e: SEdge,
)
    requires
        0 <= k,
        edge_in(bl_from(ls, k, idx, src, acc), 0, e),
    ensures
        edge_in(acc, 0, e) || exists|k0: int|
            k <= k0 < ls.len() && (#[trigger] ls[k0]).kind == LinkKind::Internal && resolve_idx(
                idx,
                0,
                ls[k0].target,
            ) == Some(e.target) && e.link_target == ls[k0].target && e.source == src,
    decreases ls.len() - k,
{
    if k < ls.len() {
        if ls[k].kind == LinkKind::Internal {
            match resolve_idx(idx, 0, ls[k].target) {
                Some(d) => {
                    let x = SEdge { source: src, target: d, link_target: ls[k].target };
                    if edge_in(acc, 0, x) {
                        lemma_bl_sound(ls, k + 1, idx, src, acc, e);
                    } else {
                        lemma_bl_sound(ls, k + 1, idx, src, acc.push(x), e);
                        if edge_in(acc.push(x), 0, e) {
                            if e == x {
                                assert(k <= k < ls.len() && ls[k].kind == LinkKind::Internal
                                    && resolve_idx(idx, 0, ls[k].target) == Some(e.target)
                                    && e.link_target == ls[k].target && e.source == src);
                            } else {
                                lemma_edge_in_push_rev(acc, 0, e, x);
                            }
                        }
                    }
                },
                None => {
                    lemma_bl_sound(ls, k + 1, idx, src, acc, e);
                },
            }
        } else {
            lemma_bl_sound(ls, k + 1, idx, src, acc, e);
        }
    }
}

/// The backlink round trip: an internal link whose target resolves yields
/// exactly one backlink edge, and every edge comes from such a link.
pub proof fn lemma_backlink_edges(ls: Seq<SLink>, idx: Seq<(Seq<u8>, u64)>, src: u64)
    ensures
        distinct_edges(spec_backlinks(ls, idx, src)),
        forall|k: int|
            0 <= k < ls.len() && (#[trigger] ls[k]).kind == LinkKind::Internal && resolve_idx(
                idx,
                0,
                ls[k].target,
            ).is_some() ==> edge_in(
                spec_backlinks(ls, idx, src),
                0,
                SEdge {
                    source: src,
                    target: resolve_idx(idx, 0, ls[k].target).unwrap(),
                    link_target: ls[k].target,
                },
            ),
        forall|e: SEdge|
            edge_in(spec_backlinks(ls, idx, src), 0, e) ==> exists|k0: int|
                0 <= k0 < ls.len() && (#[trigger] ls[k0]).kind == LinkKind::Internal && resolve_idx(
                    idx,
                    0,
                    ls[k0].target,
                ) == Some(e.target) && e.link_target == ls[k0].target && e.source == src,
{
    lemma_bl_distinct(ls, 0, idx, src, Seq::empty());
    assert forall|k: int|
        0 <= k < ls.len() && (#[trigger] ls[k]).kind == LinkKind::Internal && resolve_idx(
            idx,
            0,
            ls[k].target,
        ).is_some() implies edge_in(
        spec_backlinks(ls, idx, src),
        0,
        SEdge {
            source: src,
            target: resolve_idx(idx, 0, ls[k].target).unwrap(),
            link_target: ls[k].target,
        },
    ) by {
        lemma_bl_complete(ls, 0, idx, src, Seq::empty(), k);
    }
    assert forall|e: SEdge| edge_in(spec_backlinks(ls, idx, src), 0, e) implies exists|k0: int|
        0 <= k0 < ls.len() && (#[trigger] ls[k0]).kind == LinkKind::Internal && resolve_idx(
            idx,
            0,
            ls[k0].target,
        ) == Some(e.target) && e.link_target == ls[k0].target && e.source == src by {
        lemma_bl_sound(ls, 0, idx, src, Seq::empty(), e);
    }
}

impl DocIndex {
    /// Looks a raw link target up: the first entry with that key wins.
    pub fn resolve(&self, target: &Vec<u8>) -> (r: Option<u64>)
        ensures
            (match r {
                Option::None => resolve_idx(iviews(self.entries@), 0, target@).is_none(),
                Option::Some(d) => resolve_idx(iviews(self.entries@), 0, target@) == Some(d),
            }),
    {
        resolve_from(self, 0, target)
    }
}

fn resolve_from(index: &DocIndex, j: usize, target: &Vec<u8>) -> (r: Option<u64>)
    requires
        j <= index.entries@.len(),
    ensures
        (match r {
            Option::None => resolve_idx(iviews(index.entries@), j as int, target@).is_none(),
            Option::Some(d) => resolve_idx(iviews(index.entries@), j as int, target@) == Some(d),
        }),
    decreases index.entries@.len() - j,
{
    if j >= index.entries.len() {
        None
    } else if bytes_eq(&index.entries[j].0, target) {
        Some(index.entries[j].1)
    } else {
        resolve_from(index, j + 1, target)
    }
}

fn edge_in_x(acc: &Vec<BacklinkEdge>, j: usize, source: u64, target: u64, lt: &Vec<u8>) -> (r: bool)
    requires
        j <= acc@.len(),
    ensures
        r == edge_in(eviews(acc@), j as int, SEdge { source, target, link_target: lt@ }),
    decreases acc@.len() - j,
{
    if j >= acc.len() {
        false
    } else if acc[j].source == source && acc[j].target == target && bytes_eq(
        &acc[j].link_target,
        lt,
    ) {
        true
    } else {
        edge_in_x(acc, j + 1, source, target, lt)
    }
}

fn backlinks_rec(
    links: &Vec<Link>,
    k: usize,
    index: &DocIndex,
    src: u64,
    acc: Vec<BacklinkEdge>,
) -> (r: Vec<BacklinkEdge>)
    requires
        k <= links@.len(),
    ensures
        eviews(r@) == bl_from(
            lviews(links@),
            k as int,
            iviews(index.entries@),
            src,
            eviews(acc@),
        ),
    decreases links@.len() - k,
{
    if k >= links.len() {
        acc
    } else {
        let l = &links[k];
        let is_internal = match l.kind {
            LinkKind::Internal => true,
            _ => false,
        };
        if is_internal {
            match index.resolve(&l.target) {
                Option::Some(d) => {
                    if edge_in_x(&acc, 0, src, d, &l.target) {
                        backlinks_rec(links, k + 1, index, src, acc)
                    } else {
                        let ghost pre = acc@;
                        let mut acc2 = acc;
                        acc2.push(
                            BacklinkEdge {
                                source: src,
                                target: d,
                                link_target: crate::text::clone_bytes(&l.target),
                            },
                        );
                        proof {
                            assert(eviews(acc2@) =~= eviews(pre).push(
                                SEdge { source: src, target: d, link_target: links@[k as int].target@ },
                            ));
                        }
                        backlinks_rec(links, k + 1, index, src, acc2)
                    }
                },
                Option::None => backlinks_rec(links, k + 1, index, src, acc),
            }
        } else {
            backlinks_rec(links, k + 1, index, src, acc)
        }
    }
}

/// Resolves the backlink edges of `links` against `index` for the source
/// document `source`: one edge per resolving internal link, repeated
/// identical links collapsed to one edge.
pub fn resolve_backlinks(links: &Vec<Link>, index: &DocIndex, source: u64) -> (r: Vec<BacklinkEdge>)
    ensures
        eviews(r@) == spec_backlinks(lviews(links@), iviews(index.entries@), source),
        distinct_edges(eviews(r@)),
{
    proof {
        assert(eviews(Seq::<BacklinkEdge>::empty()) =~= Seq::<SEdge>::empty());
        lemma_backlink_edges(lviews(links@), iviews(index.entries@), source);
    }
    backlinks_rec(links, 0, index, source, Vec::new())
}

} // verus!
