//! Frontmatter parsing: the leading `---`-delimited block, parsed line by
//! line into an ordered mapping of string keys to scalar or array values.
//!
//! A `key: value` line adds an entry; the value is typed as a boolean,
//! unsigned decimal number, null (empty or `null`), or string.  A list
//! item line folds its item into the preceding key's array value.  Lines
//! without a separator are skipped, never fatal.  An absent or empty
//! block yields no frontmatter.

use vstd::prelude::*;
use crate::blocks::{Block, BlockKind, blocks_match, spec_blocks, line_end_at,
    lemma_line_end_bounds, block_shape_ok, lemma_blocks_shape, all_ws, line_is_fm_delim};
use crate::links::{find_byte, lemma_find_byte_bounds};
use crate::model::{FmEntry, FmValue};
use crate::text::{trimmed, trim_copy};

verus! {

/// A frontmatter value at the specification level.
pub enum SFmValue {
    SStr(Seq<u8>),
    SInt(u64),
    SBool(bool),
    SArr(Seq<Seq<u8>>),
    SNull,
}

/// A frontmatter entry at the specification level.
pub struct SFmEntry {
    pub key: Seq<u8>,
    pub value: SFmValue,
}

/// The specification-level image of one frontmatter value.
pub open spec fn fview_value(v: FmValue) -> SFmValue {
    match v {
        FmValue::Str(b) => SFmValue::SStr(b@),
        FmValue::Int(n) => SFmValue::SInt(n),
        FmValue::Bool(b) => SFmValue::SBool(b),
        FmValue::Arr(a) => SFmValue::SArr(a@.map_values(|x: Vec<u8>| x@)),
        FmValue::Null => SFmValue::SNull,
    }
}

/// The specification-level image of an entry list.
pub open spec fn fviews(ev: Seq<FmEntry>) -> Seq<SFmEntry> {
    ev.map_values(|e: FmEntry| SFmEntry { key: e.key@, value: fview_value(e.value) })
}

/// Every byte of `v[i..]` is a decimal digit.
pub open spec fn all_digits(v: Seq<u8>, i: int) -> bool
    decreases v.len() - i,
{
    i >= v.len() || (48 <= v[i] <= 57 && all_digits(v, i + 1))
}

/// The decimal value of the digits `v[i..]` accumulated onto `a`, or
/// nothing if it exceeds the unsigned 64-bit range.
pub open spec fn dec_val(v: Seq<u8>, i: int, a: u64) -> Option<u64>
    decreases v.len() - i,
{
    if i < 0 || i >= v.len() {
        Some(a)
    } else if a * 10 + (v[i] - 48) > u64::MAX {
        None
    } else {
        dec_val(v, i + 1, (a * 10 + (v[i] - 48)) as u64)
    }
}

/// The typed scalar value of a raw trimmed frontmatter value.
pub open spec fn classify_scalar(v: Seq<u8>) -> SFmValue {
    if v.len() == 0 {
        SFmValue::SNull
    } else if v == seq![110u8, 117u8, 108u8, 108u8] {
        SFmValue::SNull
    } else if v == seq![116u8, 114u8, 117u8, 101u8] {
        SFmValue::SBool(true)
    } else if v == seq![102u8, 97u8, 108u8, 115u8, 101u8] {
        SFmValue::SBool(false)
    } else if all_digits(v, 0) {
        match dec_val(v, 0, 0) {
            Some(n) => SFmValue::SInt(n),
            None => SFmValue::SStr(v),
        }
    } else {
        SFmValue::SStr(v)
    }
}

/// Folds one array item into the last entry: a null value becomes a
/// one-element array, an array value grows, anything else is unchanged.
pub open spec fn fold_item(es: Seq<SFmEntry>, item: Seq<u8>) -> Seq<SFmEntry> {
    if es.len() == 0 {
        es
    } else {
        let last = es[es.len() - 1];
        match last.value {
            SFmValue::SNull => es.update(
                es.len() - 1,
                SFmEntry { key: last.key, value: SFmValue::SArr(seq![item]) },
            ),
            SFmValue::SArr(a) => es.update(
                es.len() - 1,
                SFmEntry { key: last.key, value: SFmValue::SArr(a.push(item)) },
            ),
            _ => es,
        }
    }
}

/// One parsed frontmatter line applied to the entries so far.
pub open spec fn fm_line_step(s: Seq<u8>, i: int, stop: int, es: Seq<SFmEntry>) -> Seq<SFmEntry> {
    if all_ws(s, i, stop) {
        es
    } else if crate::extract::is_item_line(s, i, stop) {
        fold_item(es, trimmed(s, crate::extract::item_marker_pos(s, i, stop) + 1, stop))
    } else {
        let c = find_byte(s, i, stop, 58);
        if c >= stop {
            es
        } else {
            es.push(
                SFmEntry { key: trimmed(s, i, c), value: classify_scalar(trimmed(s, c + 1, stop)) },
            )
        }
    }
}

/// The entries parsed from the frontmatter lines in `[i, end)`.
pub open spec fn fm_entries(s: Seq<u8>, i: int, end: int, es: Seq<SFmEntry>) -> Seq<SFmEntry>
    decreases end - i,
        via fm_entries_dec
{
    if i < 0 || i >= end {
        es
    } else {
        let e = line_end_at(s, i);
        let stop = if e > end || e <= i {
            end
        } else {
            e
        };
        fm_entries(s, stop, end, fm_line_step(s, i, stop, es))
    }
}

#[via_fn]
proof fn fm_entries_dec(s: Seq<u8>, i: int, end: int, es: Seq<SFmEntry>) {
    lemma_line_end_bounds(s, i);
}

/// Start of the closing delimiter line after content position `i`, or
/// end-of-input when none closes the block.
pub open spec fn fm_inner_end(s: Seq<u8>, i: int) -> int
    decreases s.len() - i,
        via fm_inner_end_dec
{
    if i < 0 || i >= s.len() {
        s.len() as int
    } else if line_is_fm_delim(s, i) {
        i
    } else {
        fm_inner_end(s, line_end_at(s, i))
    }
}

#[via_fn]
proof fn fm_inner_end_dec(s: Seq<u8>, i: int) {
    lemma_line_end_bounds(s, i);
}

pub proof fn lemma_fm_inner_end_bounds(s: Seq<u8>, i: int)
    requires
        0 <= i <= s.len(),
    ensures
        i <= fm_inner_end(s, i) <= s.len(),
    decreases s.len() - i,
{
    if i < s.len() && !line_is_fm_delim(s, i) {
        lemma_line_end_bounds(s, i);
        lemma_fm_inner_end_bounds(s, line_end_at(s, i));
    }
}

/// The frontmatter of the input: absent when the document does not open
/// with a delimiter line or when the block holds no entry.
pub open spec fn spec_frontmatter(s: Seq<u8>) -> Option<Seq<SFmEntry>> {
    if s.len() > 0 && line_is_fm_delim(s, 0) {
        let b0 = line_end_at(s, 0);
        let es = fm_entries(s, b0, fm_inner_end(s, b0), Seq::empty());
        if es.len() == 0 {
            None
        } else {
            Some(es)
        }
    } else {
        None
    }
}

fn all_digits_x(v: &Vec<u8>, i: usize) -> (r: bool)
    requires
        i <= v@.len(),
    ensures
        r == all_digits(v@, i as int),
    decreases v@.len() - i,
{
    if i >= v.len() {
        true
    } else {
        48 <= v[i] && v[i] <= 57 && all_digits_x(v, i + 1)
    }
}

fn dec_val_x(v: &Vec<u8>, i: usize, a: u64) -> (r: Option<u64>)
    requires
        i <= v@.len(),
        all_digits(v@, i as int),
    ensures
        r == dec_val(v@, i as int, a),
    decreases v@.len() - i,
{
    if i >= v.len() {
        Some(a)
    } else {
        let d = (v[i] - 48) as u64;
        if a > (u64::MAX - d) / 10 {
            proof {
                assert(a * 10 + d > u64::MAX) by (nonlinear_arith)
                    requires
                        a > (u64::MAX - d) / 10,
                        d <= 9,
                ;
            }
            None
        } else {
            proof {
                assert(a * 10 + d <= u64::MAX) by (nonlinear_arith)
                    requires
                        a <= (u64::MAX - d) / 10,
                        d <= 9,
                ;
            }
            dec_val_x(v, i + 1, a * 10 + d)
        }
    }
}

fn is_lit(v: &Vec<u8>, l0: u8, l1: u8, l2: u8, l3: u8) -> (r: bool)
    ensures
        r == (v@ == seq![l0, l1, l2, l3]),
{
    let r = v.len() == 4 && v[0] == l0 && v[1] == l1 && v[2] == l2 && v[3] == l3;
    proof {
        let lit = seq![l0, l1, l2, l3];
        if r {
            assert(v@ =~= lit);
        } else if v@ == lit {
            assert(v@.len() == 4);
            assert(v@[0] == l0 && v@[1] == l1 && v@[2] == l2 && v@[3] == l3);
        }
    }
    r
}

fn is_lit5(v: &Vec<u8>, l0: u8, l1: u8, l2: u8, l3: u8, l4: u8) -> (r: bool)
    ensures
        r == (v@ == seq![l0, l1, l2, l3, l4]),
{
    let r = v.len() == 5 && v[0] == l0 && v[1] == l1 && v[2] == l2 && v[3] == l3 && v[4] == l4;
    proof {
        let lit = seq![l0, l1, l2, l3, l4];
        if r {
            assert(v@ =~= lit);
        } else if v@ == lit {
            assert(v@.len() == 5);
            assert(v@[0] == l0 && v@[1] == l1 && v@[2] == l2 && v@[3] == l3 && v@[4] == l4);
        }
    }
    r
}

fn classify_scalar_x(v: Vec<u8>) -> (r: FmValue)
    ensures
        fview_value(r) == classify_scalar(v@),
{
    if v.len() == 0 {
        FmValue::Null
    } else if is_lit(&v, 110, 117, 108, 108) {
        FmValue::Null
    } else if is_lit(&v, 116, 114, 117, 101) {
        FmValue::Bool(true)
    } else if is_lit5(&v, 102, 97, 108, 115, 101) {
        FmValue::Bool(false)
    } else if all_digits_x(&v, 0) {
        match dec_val_x(&v, 0, 0) {
            Option::Some(n) => FmValue::Int(n),
            Option::None => FmValue::Str(v),
        }
    } else {
        FmValue::Str(v)
    }
}

fn fm_line_step_x(s: &[u8], i: usize, stop: usize, es: Vec<FmEntry>) -> (r: Vec<FmEntry>)
    requires
        i <= stop <= s@.len(),
    ensures
        fviews(r@) == fm_line_step(s@, i as int, stop as int, fviews(es@)),
{
    let mut es = es;
    if crate::blocks::all_ws_x(s, i, stop) {
        es
    } else {
        let n = crate::blocks::run_len_x(s, i, stop, 32);
        let m = i + n;
        let mut is_item = false;
        if m < stop {
            let mb = s[m];
            if (mb == 45 || mb == 42 || mb == 43) && (m + 1 == stop || s[m + 1] == 32 || s[m + 1]
                == 9 || s[m + 1] == 10 || s[m + 1] == 13) {
                is_item = true;
            }
        }
        if is_item {
            let item = trim_copy(s, m + 1, stop);
            if es.len() > 0 {
                let ghost pre = es@;
                let last = es.pop().unwrap();
                match last.value {
                    FmValue::Null => {
                        let ghost sitem = trimmed(
                            s@,
                            crate::extract::item_marker_pos(s@, i as int, stop as int) + 1,
                            stop as int,
                        );
                        let mut arr: Vec<Vec<u8>> = Vec::new();
                        arr.push(item);
                        proof {
                            assert(arr@.map_values(|x: Vec<u8>| x@) =~= seq![sitem]);
                        }
                        es.push(FmEntry { key: last.key, value: FmValue::Arr(arr) });
                        proof {
                            assert(fviews(es@) =~~= fold_item(fviews(pre), sitem));
                        }
                    },
                    FmValue::Arr(a) => {
                        let ghost sitem = trimmed(
                            s@,
                            crate::extract::item_marker_pos(s@, i as int, stop as int) + 1,
                            stop as int,
                        );
                        let mut a = a;
                        let ghost a0 = a@;
                        a.push(item);
                        proof {
                            assert(a@.map_values(|x: Vec<u8>| x@) =~= a0.map_values(
                                |x: Vec<u8>| x@,
                            ).push(sitem));
                        }
                        es.push(FmEntry { key: last.key, value: FmValue::Arr(a) });
                        proof {
                            assert(fviews(es@) =~~= fold_item(fviews(pre), sitem));
                        }
                    },
                    _ => {
                        es.push(last);
                        proof {
                            assert(es@ =~= pre);
                        }
                    },
                }
            }
            es
        } else {
            proof {
                lemma_find_byte_bounds(s@, i as int, stop as int, 58);
            }
            let c = crate::links::find_byte_x(s, i, stop, 58);
            if c >= stop {
                es
            } else {
                let key = trim_copy(s, i, c);
                let value = classify_scalar_x(trim_copy(s, c + 1, stop));
                let ghost pre = es@;
                es.push(FmEntry { key, value });
                proof {
                    assert(fviews(es@) =~= fviews(pre).push(
                        SFmEntry {
                            key: trimmed(s@, i as int, c as int),
                            value: classify_scalar(trimmed(s@, c + 1, stop as int)),
                        },
                    ));
                }
                es
            }
        }
    }
}

fn fm_entries_x(s: &[u8], i: usize, end: usize, es: Vec<FmEntry>) -> (r: Vec<FmEntry>)
    requires
        end <= s@.len(),
    ensures
        fviews(r@) == fm_entries(s@, i as int, end as int, fviews(es@)),
    decreases end - i,
{
    if i >= end {
        es
    } else {
        proof {
            lemma_line_end_bounds(s@, i as int);
        }
        let e0 = crate::blocks::line_end_x(s, i);
        let stop = if e0 > end || e0 <= i {
            end
        } else {
            e0
        };
        let es2 = fm_line_step_x(s, i, stop, es);
        fm_entries_x(s, stop, end, es2)
    }
}

fn fm_inner_end_x(s: &[u8], i: usize) -> (r: usize)
    requires
        i <= s@.len(),
    ensures
        r as int == fm_inner_end(s@, i as int),
        i <= r <= s@.len(),
    decreases s@.len() - i,
{
    proof {
        lemma_line_end_bounds(s@, i as int);
        lemma_fm_inner_end_bounds(s@, i as int);
    }
    if i >= s.len() {
        s.len()
    } else if crate::blocks::line_is_fm_delim_x(s, i) {
        i
    } else {
        let e = crate::blocks::line_end_x(s, i);
        fm_inner_end_x(s, e)
    }
}

/// Frontmatter parsing over an existing block scan.
pub fn frontmatter_of_blocks(s: &[u8], blocks: &Vec<Block>) -> (r: Option<Vec<FmEntry>>)
    requires
        blocks_match(blocks@, spec_blocks(s@)),
    ensures
        (match r {
            Option::None => spec_frontmatter(s@).is_none(),
            Option::Some(v) => spec_frontmatter(s@) == Some(fviews(v@)),
        }),
{
    proof {
        lemma_blocks_shape(s@);
        assert(fviews(Seq::<FmEntry>::empty()) =~= Seq::<SFmEntry>::empty());
    }
    let has_fm = blocks.len() > 0 && blocks[0].kind == BlockKind::Frontmatter;
    if !has_fm {
        proof {
            if s@.len() > 0 && line_is_fm_delim(s@, 0) {
                assert(spec_blocks(s@)[0].kind == BlockKind::Frontmatter);
                assert(blocks@[0].kind == BlockKind::Frontmatter);
            }
        }
        None
    } else {
        proof {
            assert(block_shape_ok(s@, spec_blocks(s@)[0]));
        }
        let b0 = crate::blocks::line_end_x(s, 0);
        let inner = fm_inner_end_x(s, b0);
        let es = fm_entries_x(s, b0, inner, Vec::new());
        if es.len() == 0 {
            None
        } else {
            Some(es)
        }
    }
}

} // verus!
