//! Byte-level text helpers shared by the extraction stages: range copies,
//! whitespace trimming, whitespace-delimited word counting, and decimal
//! rendering of counters.

use vstd::prelude::*;
use crate::blocks::is_ws;

verus! {

/// Copies the bytes `[i, j)` of `s` into a fresh vector.
pub fn copy_range(s: &[u8], i: usize, j: usize) -> (r: Vec<u8>)
    requires
        i <= j <= s@.len(),
    ensures
        r@ == s@.subrange(i as int, j as int),
{
    let mut r: Vec<u8> = Vec::new();
    let mut k: usize = i;
    while k < j
        invariant
            i <= k <= j <= s@.len(),
            r@ == s@.subrange(i as int, k as int),
        decreases j - k,
    {
        r.push(s[k]);
        proof {
            assert(s@.subrange(i as int, k + 1 as int) == s@.subrange(i as int, k as int).push(
                s@[k as int],
            ));
        }
        k = k + 1;
    }
    r
}

/// First position in `[i, e)` holding a non-whitespace byte, else `e`.
pub open spec fn ws_front(s: Seq<u8>, i: int, e: int) -> int
    decreases e - i,
{
    if i >= e || !is_ws(s[i]) {
        i
    } else {
        ws_front(s, i + 1, e)
    }
}

pub proof fn lemma_ws_front_bounds(s: Seq<u8>, i: int, e: int)
    requires
        i <= e,
    ensures
        i <= ws_front(s, i, e) <= e,
    decreases e - i,
{
    if i < e && is_ws(s[i]) {
        lemma_ws_front_bounds(s, i + 1, e);
    }
}

/// One past the last non-whitespace byte of `[i, e)`, else `i`.
pub open spec fn ws_back(s: Seq<u8>, i: int, e: int) -> int
    decreases e - i,
{
    if e <= i || !is_ws(s[e - 1]) {
        e
    } else {
        ws_back(s, i, e - 1)
    }
}

pub proof fn lemma_ws_back_bounds(s: Seq<u8>, i: int, e: int)
    requires
        i <= e,
    ensures
        i <= ws_back(s, i, e) <= e,
    decreases e - i,
{
    if e > i && is_ws(s[e - 1]) {
        lemma_ws_back_bounds(s, i, e - 1);
    }
}

/// The bytes of `[i, e)` with surrounding whitespace removed.
pub open spec fn trimmed(s: Seq<u8>, i: int, e: int) -> Seq<u8> {
    let f = ws_front(s, i, e);
    let b = ws_back(s, f, e);
    s.subrange(f, b)
}

pub(crate) fn ws_front_x(s: &[u8], i: usize, e: usize) -> (r: usize)
    requires
        i <= e <= s@.len(),
    ensures
        r as int == ws_front(s@, i as int, e as int),
        i <= r <= e,
    decreases e - i,
{
    proof {
        lemma_ws_front_bounds(s@, i as int, e as int);
    }
    if i >= e || !(s[i] == 32 || s[i] == 9 || s[i] == 10 || s[i] == 13) {
        i
    } else {
        ws_front_x(s, i + 1, e)
    }
}

fn ws_back_x(s: &[u8], i: usize, e: usize) -> (r: usize)
    requires
        i <= e <= s@.len(),
    ensures
        r as int == ws_back(s@, i as int, e as int),
        i <= r <= e,
    decreases e - i,
{
    proof {
        lemma_ws_back_bounds(s@, i as int, e as int);
    }
    if e <= i || !(s[e - 1] == 32 || s[e - 1] == 9 || s[e - 1] == 10 || s[e - 1] == 13) {
        e
    } else {
        ws_back_x(s, i, e - 1)
    }
}

/// Copies the bytes `[i, j)` of `s`, surrounding whitespace removed.
pub fn trim_copy(s: &[u8], i: usize, j: usize) -> (r: Vec<u8>)
    requires
        i <= j <= s@.len(),
    ensures
        r@ == trimmed(s@, i as int, j as int),
{
    let f = ws_front_x(s, i, j);
    let b = ws_back_x(s, f, j);
    copy_range(s, f, b)
}

/// Number of whitespace-delimited words in `[i, e)`; `prev_ws` says whether
/// the byte before `i` was whitespace (or a span boundary).
pub open spec fn wcount(s: Seq<u8>, i: int, e: int, prev_ws: bool) -> int
    decreases e - i,
{
    if i >= e {
        0
    } else {
        let c = is_ws(s[i]);
        (if !c && prev_ws {
            1int
        } else {
            0int
        }) + wcount(s, i + 1, e, c)
    }
}

pub proof fn lemma_wcount_bounds(s: Seq<u8>, i: int, e: int, prev_ws: bool)
    ensures
        0 <= wcount(s, i, e, prev_ws) <= (if i <= e {
            e - i
        } else {
            0
        }),
    decreases e - i,
{
    if i < e {
        lemma_wcount_bounds(s, i + 1, e, is_ws(s[i]));
    }
}

/// Counts whitespace-delimited words in the bytes `[i, e)`.
pub fn count_words(s: &[u8], i: usize, e: usize) -> (r: usize)
    requires
        i <= e <= s@.len(),
    ensures
        r as int == wcount(s@, i as int, e as int, true),
        r <= e - i,
{
    count_words_from(s, i, e, true)
}

fn count_words_from(s: &[u8], i: usize, e: usize, prev_ws: bool) -> (r: usize)
    requires
        i <= e <= s@.len(),
    ensures
        r as int == wcount(s@, i as int, e as int, prev_ws),
        r <= e - i,
    decreases e - i,
{
    if i >= e {
        0
    } else {
        proof {
            lemma_wcount_bounds(s@, i + 1, e as int, is_ws(s@[i as int]));
        }
        let c = s[i] == 32 || s[i] == 9 || s[i] == 10 || s[i] == 13;
        let rest = count_words_from(s, i + 1, e, c);
        if !c && prev_ws {
            rest + 1
        } else {
            rest
        }
    }
}

/// A fresh copy of a byte vector.
pub fn clone_bytes(v: &Vec<u8>) -> (r: Vec<u8>)
    ensures
        r@ == v@,
{
    let r = copy_range(v.as_slice(), 0, v.len());
    proof {
        assert(v@.subrange(0, v@.len() as int) =~= v@);
    }
    r
}

/// Byte-for-byte equality of two byte vectors.
pub fn bytes_eq(a: &Vec<u8>, b: &Vec<u8>) -> (r: bool)
    ensures
        r == (a@ == b@),
{
    if a.len() != b.len() {
        proof {
            assert(a@ != b@);
        }
        return false;
    }
    let mut i: usize = 0;
    while i < a.len()
        invariant
            i <= a.len(),
            a@.len() == b@.len(),
            forall|k: int| 0 <= k < i ==> a@[k] == #[trigger] b@[k],
        decreases a.len() - i,
    {
        if a[i] != b[i] {
            proof {
                if a@ == b@ {
                    assert(a@[i as int] == b@[i as int]);
                }
            }
            return false;
        }
        i = i + 1;
    }
    proof {
        assert(a@ =~= b@);
    }
    true
}

/// The decimal digits of `n`, most significant first.
pub open spec fn dec_digits(n: int) -> Seq<u8>
    decreases n,
{
    if n < 10 {
        seq![(48 + if n >= 0 {
            n
        } else {
            0
        }) as u8]
    } else {
        dec_digits(n / 10).push((48 + n % 10) as u8)
    }
}

/// Appends the decimal digits of `n` to `out`.
pub fn push_decimal(out: &mut Vec<u8>, n: u64)
    ensures
        final(out)@ == old(out)@ + dec_digits(n as int),
    decreases n,
{
    if n < 10 {
        out.push(48 + (n as u8));
    } else {
        push_decimal(out, n / 10);
        out.push(48 + ((n % 10) as u8));
    }
}

} // verus!
