//! Byte-level scanning primitives for the rule grammar: whitespace trimming,
//! substring search, whitespace tokenization, and decimal parsing, each an
//! executable function proved against a specification-level mirror.

use vstd::prelude::*;

verus! {

/// ASCII whitespace as the grammar understands it.
pub open spec fn is_ws(b: u8) -> bool {
    b == 32 || b == 9 || b == 10 || b == 13
}

/// An ASCII decimal digit.
pub open spec fn is_digit(b: u8) -> bool {
    48 <= b <= 57
}

/// `s` with leading whitespace removed.
pub open spec fn spec_trim_start(s: Seq<u8>) -> Seq<u8>
    decreases s.len(),
{
    if s.len() == 0 {
        s
    } else if is_ws(s[0]) {
        spec_trim_start(s.drop_first())
    } else {
        s
    }
}

/// `s` with trailing whitespace removed.
pub open spec fn spec_trim_end(s: Seq<u8>) -> Seq<u8>
    decreases s.len(),
{
    if s.len() == 0 {
        s
    } else if is_ws(s.last()) {
        spec_trim_end(s.drop_last())
    } else {
        s
    }
}

/// `s` with leading and trailing whitespace removed.
pub open spec fn spec_trim(s: Seq<u8>) -> Seq<u8> {
    spec_trim_end(spec_trim_start(s))
}

/// Whether `pat` occurs in `s` at position `i`.
pub open spec fn matches_at(s: Seq<u8>, i: int, pat: Seq<u8>) -> bool {
    0 <= i && i + pat.len() <= s.len() && s.subrange(i, i + pat.len()) == pat
}

/// The first position at or after `from` where `pat` occurs in `s`.
pub open spec fn spec_find(s: Seq<u8>, pat: Seq<u8>, from: int) -> Option<int>
    decreases s.len() - from + 1,
{
    if from < 0 || from + pat.len() > s.len() {
        None
    } else if matches_at(s, from, pat) {
        Some(from)
    } else {
        spec_find(s, pat, from + 1)
    }
}

/// A successful find is a match at or after the start position.
pub proof fn lemma_find_some(s: Seq<u8>, pat: Seq<u8>, from: int, p: int)
    requires
        spec_find(s, pat, from) == Some(p),
    ensures
        from <= p,
        matches_at(s, p, pat),
    decreases s.len() - from + 1,
{
    if !(from < 0 || from + pat.len() > s.len()) && !matches_at(s, from, pat) {
        lemma_find_some(s, pat, from + 1, p);
    }
}

/// The length of the maximal non-whitespace prefix of `s`.
pub open spec fn tok_len(s: Seq<u8>) -> int
    decreases s.len(),
{
    if s.len() == 0 || is_ws(s[0]) {
        0
    } else {
        1 + tok_len(s.drop_first())
    }
}

pub proof fn lemma_tok_len_bounds(s: Seq<u8>)
    ensures
        0 <= tok_len(s) <= s.len(),
        s.len() > 0 && !is_ws(s[0]) ==> tok_len(s) >= 1,
    decreases s.len(),
{
    if s.len() > 0 && !is_ws(s[0]) {
        lemma_tok_len_bounds(s.drop_first());
    }
}

/// `s` split on runs of whitespace into its maximal non-whitespace tokens,
/// in order.
pub open spec fn spec_split_ws(s: Seq<u8>) -> Seq<Seq<u8>>
    decreases s.len(),
    via spec_split_ws_decreases
{
    if s.len() == 0 {
        Seq::empty()
    } else if is_ws(s[0]) {
        spec_split_ws(s.drop_first())
    } else {
        seq![s.take(tok_len(s))] + spec_split_ws(s.skip(tok_len(s)))
    }
}

#[via_fn]
proof fn spec_split_ws_decreases(s: Seq<u8>) {
    lemma_tok_len_bounds(s);
}

/// The value of a digit string.
pub open spec fn digits_val(s: Seq<u8>) -> int
    decreases s.len(),
{
    if s.len() == 0 {
        0
    } else {
        digits_val(s.drop_last()) * 10 + (s.last() - 48)
    }
}

/// Whether every byte of `s` is a decimal digit.
pub open spec fn all_digits(s: Seq<u8>) -> bool {
    forall|i: int| 0 <= i < s.len() ==> is_digit(#[trigger] s[i])
}

/// What `str::parse::<u8>` accepts and returns: an optional leading `+`,
/// then at least one digit, with a value of at most 255.
pub open spec fn spec_parse_u8(s: Seq<u8>) -> Option<u8> {
    let body = if s.len() > 0 && s[0] == 43 {
        s.drop_first()
    } else {
        s
    };
    if body.len() > 0 && all_digits(body) && digits_val(body) <= 255 {
        Some(digits_val(body) as u8)
    } else {
        None
    }
}

/// What `str::parse::<usize>` accepts and returns, on a 64-bit machine.
pub open spec fn spec_parse_usize(s: Seq<u8>) -> Option<usize> {
    let body = if s.len() > 0 && s[0] == 43 {
        s.drop_first()
    } else {
        s
    };
    if body.len() > 0 && all_digits(body) && digits_val(body) <= usize::MAX {
        Some(digits_val(body) as usize)
    } else {
        None
    }
}

pub proof fn lemma_digits_val_nonneg(s: Seq<u8>)
    requires
        all_digits(s),
    ensures
        digits_val(s) >= 0,
    decreases s.len(),
{
    if s.len() > 0 {
        assert(all_digits(s.drop_last())) by {
            assert(forall|i: int| 0 <= i < s.len() - 1 ==> is_digit(#[trigger] s[i]));
            assert(forall|i: int|
                0 <= i < s.drop_last().len() ==> #[trigger] s.drop_last()[i] == s[i]);
        }
        lemma_digits_val_nonneg(s.drop_last());
    }
}

/// Copy a subrange of a byte slice.
pub fn subrange_vec(s: &[u8], lo: usize, hi: usize) -> (r: Vec<u8>)
    requires
        lo <= hi <= s@.len(),
    ensures
        r@ == s@.subrange(lo as int, hi as int),
{
    let mut r: Vec<u8> = Vec::new();
    let mut i: usize = lo;
    while i < hi
        invariant
            lo <= i <= hi <= s@.len(),
            r@ == s@.subrange(lo as int, i as int),
        decreases hi - i,
    {
        r.push(s[i]);
        proof {
            assert(r@ =~= s@.subrange(lo as int, i + 1));
        }
        i += 1;
    }
    r
}

/// Whether a byte is grammar whitespace, executably.
pub fn is_ws_exec(b: u8) -> (r: bool)
    ensures
        r == is_ws(b),
{
    b == 32 || b == 9 || b == 10 || b == 13
}

pub proof fn lemma_trim_start_skip(s: Seq<u8>, lo: int)
    requires
        0 <= lo <= s.len(),
        forall|j: int| 0 <= j < lo ==> is_ws(#[trigger] s[j]),
        lo == s.len() || !is_ws(s[lo]),
    ensures
        spec_trim_start(s) == s.skip(lo),
    decreases lo,
{
    if lo == 0 {
        assert(s.skip(0) =~= s);
    } else {
        assert(is_ws(s[0]));
        lemma_trim_start_skip(s.drop_first(), lo - 1);
        assert(s.drop_first().skip(lo - 1) =~= s.skip(lo));
    }
}

pub proof fn lemma_trim_end_take(s: Seq<u8>, hi: int)
    requires
        0 <= hi <= s.len(),
        forall|j: int| hi <= j < s.len() ==> is_ws(#[trigger] s[j]),
        hi == 0 || !is_ws(s[hi - 1]),
    ensures
        spec_trim_end(s) == s.take(hi),
    decreases s.len() - hi,
{
    if hi == s.len() {
        assert(s.take(hi) =~= s);
    } else {
        assert(is_ws(s.last()));
        lemma_trim_end_take(s.drop_last(), hi);
        assert(s.drop_last().take(hi) =~= s.take(hi));
    }
}

/// Trim leading and trailing whitespace, returning a copy.
pub fn trim_vec(s: &[u8]) -> (r: Vec<u8>)
    ensures
        r@ == spec_trim(s@),
{
    let n = s.len();
    let mut lo: usize = 0;
    while lo < n && is_ws_exec(s[lo])
        invariant
            n == s@.len(),
            lo <= n,
            forall|j: int| 0 <= j < lo ==> is_ws(#[trigger] s@[j]),
        decreases n - lo,
    {
        lo += 1;
    }
    let mut hi: usize = n;
    while hi > lo && is_ws_exec(s[hi - 1])
        invariant
            n == s@.len(),
            lo <= hi <= n,
            forall|j: int| 0 <= j < lo ==> is_ws(#[trigger] s@[j]),
            lo == n || !is_ws(s@[lo as int]),
            forall|j: int| hi <= j < n ==> is_ws(#[trigger] s@[j]),
        decreases hi,
    {
        hi -= 1;
    }
    let r = subrange_vec(s, lo, hi);
    proof {
        lemma_trim_start_skip(s@, lo as int);
        let t = s@.skip(lo as int);
        lemma_trim_end_take(t, hi - lo);
        assert(t.take(hi - lo) =~= s@.subrange(lo as int, hi as int));
    }
    r
}

/// Byte-range equality against a pattern at a fixed position.
fn eq_at(s: &[u8], i: usize, pat: &[u8]) -> (r: bool)
    requires
        i + pat@.len() <= s@.len(),
    ensures
        r == matches_at(s@, i as int, pat@),
{
    let n = s.len();
    let m = pat.len();
    let mut j: usize = 0;
    while j < m
        invariant
            n == s@.len(),
            m == pat@.len(),
            i + m <= n,
            j <= m,
            forall|k: int| 0 <= k < j ==> s@[i + k] == #[trigger] pat@[k],
        decreases m - j,
    {
        if s[i + j] != pat[j] {
            proof {
                assert(s@.subrange(i as int, i + m)[j as int] != pat@[j as int]);
            }
            return false;
        }
        j += 1;
    }
    proof {
        assert(s@.subrange(i as int, i + m) =~= pat@);
    }
    true
}

/// Whether `s` starts with `pat`.
pub fn starts_with_bytes(s: &[u8], pat: &[u8]) -> (r: bool)
    ensures
        r == matches_at(s@, 0, pat@),
{
    if pat.len() > s.len() {
        return false;
    }
    eq_at(s, 0, pat)
}

/// The first occurrence of `pat` in `s` at or after `from`.
pub fn find_sub(s: &[u8], pat: &[u8], from: usize) -> (r: Option<usize>)
    ensures
        match r {
            Some(p) => spec_find(s@, pat@, from as int) == Some(p as int),
            None => spec_find(s@, pat@, from as int) is None,
        },
{
    let n = s.len();
    let m = pat.len();
    if from > n || m > n - from {
        return None;
    }
    let limit = n - m;
    let mut i: usize = from;
    loop
        invariant_except_break
            n == s@.len(),
            m == pat@.len(),
            limit == n - m,
            from <= i <= limit,
            spec_find(s@, pat@, from as int) == spec_find(s@, pat@, i as int),
        ensures
            spec_find(s@, pat@, from as int) is None,
        decreases limit - i,
    {
        if eq_at(s, i, pat) {
            return Some(i);
        }
        if i == limit {
            proof {
                assert(spec_find(s@, pat@, i + 1) is None);
            }
            break;
        }
        i += 1;
    }
    None
}

/// Whether `s` contains the byte `b`.
pub fn contains_byte_exec(s: &[u8], b: u8) -> (r: bool)
    ensures
        r == exists|i: int| 0 <= i < s@.len() && s@[i] == b,
{
    let n = s.len();
    let mut i: usize = 0;
    while i < n
        invariant
            n == s@.len(),
            i <= n,
            forall|j: int| 0 <= j < i ==> s@[j] != b,
        decreases n - i,
    {
        if s[i] == b {
            return true;
        }
        i += 1;
    }
    false
}

/// Split on whitespace into the maximal non-whitespace tokens, in order.
pub fn split_ws_vec(s: &[u8]) -> (r: Vec<Vec<u8>>)
    ensures
        r.deep_view() == spec_split_ws(s@),
{
    let n = s.len();
    let mut r: Vec<Vec<u8>> = Vec::new();
    let mut i: usize = 0;
    proof {
        assert(s@.skip(0) =~= s@);
        assert(r.deep_view() + spec_split_ws(s@.skip(0)) =~= spec_split_ws(s@));
    }
    while i < n
        invariant
            n == s@.len(),
            i <= n,
            r.deep_view() + spec_split_ws(s@.skip(i as int)) == spec_split_ws(s@),
        decreases n - i,
    {
        if is_ws_exec(s[i]) {
            proof {
                assert(s@.skip(i as int)[0] == s@[i as int]);
                assert(s@.skip(i as int).drop_first() =~= s@.skip(i + 1));
            }
            i += 1;
        } else {
            let start = i;
            let mut j: usize = i + 1;
            while j < n && !is_ws_exec(s[j])
                invariant
                    n == s@.len(),
                    start < j <= n,
                    forall|k: int| start <= k < j ==> !is_ws(#[trigger] s@[k]),
                decreases n - j,
            {
                j += 1;
            }
            let tok = subrange_vec(s, start, j);
            let ghost old_dv = r.deep_view();
            let ghost tokv = tok@;
            proof {
                assert(tok.deep_view() =~= tokv);
            }
            r.push(tok);
            proof {
                assert(r.deep_view() =~= old_dv.push(tokv));
                let suffix = s@.skip(start as int);
                lemma_tok_len_suffix(s@, start as int, j as int);
                assert(suffix.take(j - start) =~= s@.subrange(start as int, j as int));
                assert(suffix.skip(j - start) =~= s@.skip(j as int));
                assert(spec_split_ws(suffix) == seq![tokv] + spec_split_ws(s@.skip(j as int)));
                assert(r.deep_view() + spec_split_ws(s@.skip(j as int)) =~= old_dv + spec_split_ws(
                    suffix,
                ));
            }
            i = j;
        }
    }
    proof {
        assert(s@.skip(n as int) =~= Seq::<u8>::empty());
        assert(r.deep_view() + spec_split_ws(s@.skip(n as int)) =~= r.deep_view());
    }
    r
}

/// The maximal non-whitespace prefix of the suffix starting at `start` runs
/// exactly to `j`.
pub proof fn lemma_tok_len_suffix(s: Seq<u8>, start: int, j: int)
    requires
        0 <= start < j <= s.len(),
        forall|k: int| start <= k < j ==> !is_ws(#[trigger] s[k]),
        j == s.len() || is_ws(s[j]),
    ensures
        tok_len(s.skip(start)) == j - start,
    decreases j - start,
{
    let suffix = s.skip(start);
    assert(!is_ws(suffix[0]));
    assert(tok_len(suffix) == 1 + tok_len(suffix.drop_first()));
    if start + 1 == j {
        assert(suffix.drop_first() =~= s.skip(start + 1));
        if j < s.len() {
            assert(s.skip(start + 1)[0] == s[j]);
            assert(tok_len(s.skip(start + 1)) == 0);
        } else {
            assert(s.skip(start + 1).len() == 0);
            assert(tok_len(s.skip(start + 1)) == 0);
        }
    } else {
        lemma_tok_len_suffix(s, start + 1, j);
        assert(suffix.drop_first() =~= s.skip(start + 1));
        assert(tok_len(suffix.drop_first()) == j - start - 1);
    }
}

/// Parse a `u8` as `str::parse` would: optional `+`, then digits, value at
/// most 255.
pub fn parse_u8_bytes(s: &[u8]) -> (r: Option<u8>)
    ensures
        r == spec_parse_u8(s@),
{
    let n = s.len();
    let start: usize = if n > 0 && s[0] == 43 {
        1
    } else {
        0
    };
    let ghost body = if s@.len() > 0 && s@[0] == 43 {
        s@.drop_first()
    } else {
        s@
    };
    proof {
        assert(body =~= s@.subrange(start as int, n as int));
    }
    if n == start {
        return None;
    }
    let mut value: u32 = 0;
    let mut i: usize = start;
    proof {
        assert(body.subrange(0, 0) =~= Seq::<u8>::empty());
    }
    while i < n
        invariant
            n == s@.len(),
            start <= i <= n,
            body == s@.subrange(start as int, n as int),
            body == (if s@.len() > 0 && s@[0] == 43 {
                s@.drop_first()
            } else {
                s@
            }),
            all_digits(body.subrange(0, i - start)),
            value <= 255,
            value == digits_val(body.subrange(0, i - start)),
        decreases n - i,
    {
        let b = s[i];
        if b < 48 || b > 57 {
            proof {
                assert(body[i - start] == b);
                assert(!is_digit(body[i - start]));
                assert(!all_digits(body));
            }
            return None;
        }
        let d = (b - 48) as u32;
        let next = value * 10 + d;
        proof {
            assert(body.subrange(0, i + 1 - start).drop_last() =~= body.subrange(0, i - start));
            assert(body.subrange(0, i + 1 - start).last() == body[i - start]);
            assert(body[i - start] == b);
            assert forall|k: int| 0 <= k < i + 1 - start implies is_digit(
                #[trigger] body.subrange(0, i + 1 - start)[k],
            ) by {
                if k < i - start {
                    assert(body.subrange(0, i + 1 - start)[k] == body.subrange(0, i - start)[k]);
                } else {
                    assert(body.subrange(0, i + 1 - start)[k] == body[i - start]);
                }
            }
            assert(digits_val(body.subrange(0, i + 1 - start)) == value * 10 + (b - 48));
        }
        if next > 255 {
            proof {
                lemma_digits_prefix_too_big(body, i + 1 - start);
            }
            return None;
        }
        value = next;
        i += 1;
    }
    proof {
        assert(body.subrange(0, n - start) =~= body);
    }
    Some(value as u8)
}

/// Once a digit-string prefix exceeds 255, the whole string does: appending
/// digits never decreases the value.
proof fn lemma_digits_prefix_too_big(s: Seq<u8>, k: int)
    requires
        0 < k <= s.len(),
        all_digits(s.subrange(0, k)),
        digits_val(s.subrange(0, k)) > 255,
    ensures
        !(all_digits(s) && digits_val(s) <= 255),
    decreases s.len() - k,
{
    if k == s.len() {
        assert(s.subrange(0, k) =~= s);
    } else {
        if all_digits(s) {
            assert(all_digits(s.subrange(0, k + 1))) by {
                assert(forall|i: int|
                    0 <= i < k + 1 ==> #[trigger] s.subrange(0, k + 1)[i] == s[i]);
            }
            assert(s.subrange(0, k + 1).drop_last() =~= s.subrange(0, k));
            assert(digits_val(s.subrange(0, k + 1)) == digits_val(s.subrange(0, k)) * 10 + (
            s.subrange(0, k + 1).last() - 48));
            assert(is_digit(s[k]));
            assert(digits_val(s.subrange(0, k + 1)) > 255);
            lemma_digits_prefix_too_big(s, k + 1);
        }
    }
}

/// Parse a `usize` as `str::parse` would: optional `+`, then digits, value
/// at most `usize::MAX`.
pub fn parse_usize_bytes(s: &[u8]) -> (r: Option<usize>)
    ensures
        r == spec_parse_usize(s@),
{
    let n = s.len();
    let start: usize = if n > 0 && s[0] == 43 {
        1
    } else {
        0
    };
    let ghost body = if s@.len() > 0 && s@[0] == 43 {
        s@.drop_first()
    } else {
        s@
    };
    proof {
        assert(body =~= s@.subrange(start as int, n as int));
    }
    if n == start {
        return None;
    }
    let mut value: u128 = 0;
    let mut i: usize = start;
    proof {
        assert(body.subrange(0, 0) =~= Seq::<u8>::empty());
    }
    while i < n
        invariant
            n == s@.len(),
            start <= i <= n,
            body == s@.subrange(start as int, n as int),
            body == (if s@.len() > 0 && s@[0] == 43 {
                s@.drop_first()
            } else {
                s@
            }),
            all_digits(body.subrange(0, i - start)),
            value <= usize::MAX,
            value == digits_val(body.subrange(0, i - start)),
        decreases n - i,
    {
        let b = s[i];
        if b < 48 || b > 57 {
            proof {
                assert(body[i - start] == b);
                assert(!is_digit(body[i - start]));
                assert(!all_digits(body));
            }
            return None;
        }
        let d = (b - 48) as u128;
        let next = value * 10 + d;
        proof {
            assert(body.subrange(0, i + 1 - start).drop_last() =~= body.subrange(0, i - start));
            assert(body.subrange(0, i + 1 - start).last() == body[i - start]);
            assert(body[i - start] == b);
            assert forall|k: int| 0 <= k < i + 1 - start implies is_digit(
                #[trigger] body.subrange(0, i + 1 - start)[k],
            ) by {
                if k < i - start {
                    assert(body.subrange(0, i + 1 - start)[k] == body.subrange(0, i - start)[k]);
                } else {
                    assert(body.subrange(0, i + 1 - start)[k] == body[i - start]);
                }
            }
            assert(digits_val(body.subrange(0, i + 1 - start)) == value * 10 + (b - 48));
        }
        if next > usize::MAX as u128 {
            proof {
                lemma_digits_prefix_exceeds(body, i + 1 - start, usize::MAX as int);
            }
            return None;
        }
        value = next;
        i += 1;
    }
    proof {
        assert(body.subrange(0, n - start) =~= body);
    }
    Some(value as usize)
}

/// Once a digit-string prefix exceeds a bound, the whole string does.
proof fn lemma_digits_prefix_exceeds(s: Seq<u8>, k: int, bound: int)
    requires
        0 < k <= s.len(),
        bound >= 0,
        all_digits(s.subrange(0, k)),
        digits_val(s.subrange(0, k)) > bound,
    ensures
        !(all_digits(s) && digits_val(s) <= bound),
    decreases s.len() - k,
{
    if k == s.len() {
        assert(s.subrange(0, k) =~= s);
    } else {
        if all_digits(s) {
            assert(all_digits(s.subrange(0, k + 1))) by {
                assert(forall|i: int|
                    0 <= i < k + 1 ==> #[trigger] s.subrange(0, k + 1)[i] == s[i]);
            }
            assert(s.subrange(0, k + 1).drop_last() =~= s.subrange(0, k));
            assert(digits_val(s.subrange(0, k + 1)) == digits_val(s.subrange(0, k)) * 10 + (
            s.subrange(0, k + 1).last() - 48));
            assert(is_digit(s[k]));
            assert(digits_val(s.subrange(0, k + 1)) > bound);
            lemma_digits_prefix_exceeds(s, k + 1, bound);
        }
    }
}

} // verus!
