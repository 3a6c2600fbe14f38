//! Byte-string helpers for the wire protocol: decimal rendering and
//! parsing, searching, trimming and splitting over raw bytes.

use vstd::prelude::*;

verus! {

/// The decimal digits of `n`, most significant first, as ASCII bytes.
pub open spec fn dec_digits(n: nat) -> Seq<u8>
    decreases n,
{
    if n < 10 {
        seq![(48 + n) as u8]
    } else {
        dec_digits(n / 10).push((48 + n % 10) as u8)
    }
}

/// Appends the decimal rendering of `n` to `buf`.
pub fn push_dec(buf: &mut Vec<u8>, n: u16)
    ensures
        final(buf)@ == old(buf)@ + dec_digits(n as nat),
    decreases n,
{
    if n < 10 {
        buf.push(48 + (n as u8));
        assert(final(buf)@ =~= old(buf)@ + dec_digits(n as nat));
    } else {
        push_dec(buf, n / 10);
        buf.push(48 + ((n % 10) as u8));
        assert(final(buf)@ =~= old(buf)@ + dec_digits(n as nat));
    }
}

/// True when every byte of `s` is an ASCII decimal digit and there is at
/// least one of them.
pub open spec fn all_digits(s: Seq<u8>) -> bool {
    s.len() > 0 && (forall|i: int| 0 <= i < s.len() ==> 48 <= #[trigger] s[i] <= 57)
}

/// The numeric value of a digit string, read in base ten.
pub open spec fn dec_value(s: Seq<u8>) -> nat
    decreases s.len(),
{
    if s.len() == 0 {
        0
    } else {
        (dec_value(s.drop_last()) * 10 + (s.last() - 48)) as nat
    }
}

/// Growing a digit string never shrinks its value.
proof fn lemma_dec_value_prefix(s: Seq<u8>, i: int)
    requires
        0 <= i <= s.len(),
        forall|j: int| 0 <= j < s.len() ==> 48 <= #[trigger] s[j] <= 57,
    ensures
        dec_value(s.take(i)) <= dec_value(s),
    decreases s.len() - i,
{
    if i < s.len() {
        lemma_dec_value_prefix(s, i + 1);
        assert(s.take(i + 1).drop_last() =~= s.take(i));
        assert(dec_value(s.take(i + 1)) == dec_value(s.take(i)) * 10 + (s[i] - 48));
    } else {
        assert(s.take(i) =~= s);
    }
}

/// The value of `s`, the way `usize` reads a decimal string: an optional
/// leading `+`, then digits only, and the value must fit.  Anything else
/// is `None`.
pub open spec fn parsed_usize(s: Seq<u8>) -> Option<nat> {
    let digits = if s.len() > 0 && s[0] == 43 {
        s.drop_first()
    } else {
        s
    };
    if all_digits(digits) && dec_value(digits) <= usize::MAX {
        Some(dec_value(digits))
    } else {
        None
    }
}

/// Reads a decimal `usize` from `s`; mirrors `parsed_usize` exactly.
pub fn parse_usize(s: &[u8]) -> (r: Option<usize>)
    ensures
        match r {
            Some(v) => parsed_usize(s@) == Some(v as nat),
            None => parsed_usize(s@) is None,
        },
{
    let ghost whole: Seq<u8> = s@;
    let mut start: usize = 0;
    if s.len() > 0 && s[0] == 43 {
        start = 1;
    }
    let ghost digits: Seq<u8> = if whole.len() > 0 && whole[0] == 43 {
        whole.drop_first()
    } else {
        whole
    };
    proof {
        assert(whole.subrange(0, whole.len() as int) =~= whole);
        if whole.len() > 0 && whole[0] == 43 {
            assert(whole.subrange(1, whole.len() as int) =~= whole.drop_first());
        }
    }
    if s.len() == start {
        return None;
    }
    let mut acc: usize = 0;
    let mut i: usize = start;
    while i < s.len()
        invariant
            start <= i <= s.len(),
            s@ == whole,
            start == (if whole.len() > 0 && whole[0] == 43 {
                1int
            } else {
                0int
            }),
            digits == (if whole.len() > 0 && whole[0] == 43 {
                whole.drop_first()
            } else {
                whole
            }),
            digits == whole.subrange(start as int, whole.len() as int),
            forall|j: int| start <= j < i ==> 48 <= #[trigger] whole[j] <= 57,
            acc as nat == dec_value(digits.take(i - start)),
        decreases s.len() - i,
    {
        let b = s[i];
        if b < 48 || b > 57 {
            assert(digits[i - start] == b);
            assert(!all_digits(digits));
            return None;
        }
        let d = (b - 48) as usize;
        if acc > (usize::MAX - d) / 10 {
            proof {
                assert(digits.take(i - start + 1).drop_last() =~= digits.take(i - start));
                assert(dec_value(digits.take(i - start + 1)) == acc as nat * 10 + d);
                assert(acc as nat * 10 + d > usize::MAX) by (nonlinear_arith)
                    requires
                        acc > (usize::MAX - d) / 10,
                        d < 10,
                ;
                if all_digits(digits) {
                    lemma_dec_value_prefix(digits, i - start + 1);
                }
            }
            return None;
        }
        proof {
            assert(digits.take(i - start + 1).drop_last() =~= digits.take(i - start));
            assert(acc * 10 + d <= usize::MAX) by (nonlinear_arith)
                requires
                    acc <= (usize::MAX - d) / 10,
                    d < 10,
            ;
        }
        acc = acc * 10 + d;
        i = i + 1;
    }
    proof {
        assert(digits.take(i - start) =~= digits);
        assert(all_digits(digits));
    }
    Some(acc)
}

/// True when `p` is a prefix of `s`.
pub open spec fn is_prefix_of(p: Seq<u8>, s: Seq<u8>) -> bool {
    p.len() <= s.len() && s.take(p.len() as int) == p
}

/// Compares two byte slices for equality.
pub fn bytes_eq(a: &[u8], b: &[u8]) -> (r: bool)
    ensures
        r == (a@ == b@),
{
    if a.len() != b.len() {
        assert(a@ != b@) by {
            assert(a@.len() != b@.len());
        }
        return false;
    }
    let mut i: usize = 0;
    while i < a.len()
        invariant
            i <= a.len(),
            a@.len() == b@.len(),
            forall|j: int| 0 <= j < i ==> a@[j] == b@[j],
        decreases a.len() - i,
    {
        if a[i] != b[i] {
            return false;
        }
        i = i + 1;
    }
    assert(a@ =~= b@);
    true
}

/// Tests whether `s` starts with `p`.
pub fn starts_with(s: &[u8], p: &[u8]) -> (r: bool)
    ensures
        r == is_prefix_of(p@, s@),
{
    if p.len() > s.len() {
        return false;
    }
    let head = vstd::slice::slice_subrange(s, 0, p.len());
    bytes_eq(head, p)
}

/// Appends all of `src` to `buf`.
pub fn push_bytes(buf: &mut Vec<u8>, src: &[u8])
    ensures
        final(buf)@ == old(buf)@ + src@,
{
    let mut i: usize = 0;
    while i < src.len()
        invariant
            i <= src.len(),
            buf@ == old(buf)@ + src@.take(i as int),
        decreases src.len() - i,
    {
        buf.push(src[i]);
        assert(buf@ =~= old(buf)@ + src@.take(i + 1));
        i = i + 1;
    }
    assert(buf@ =~= old(buf)@ + src@);
}

/// Copies a byte slice into an owned vector.
pub fn bytes_of(src: &[u8]) -> (r: Vec<u8>)
    ensures
        r@ == src@,
{
    let mut buf: Vec<u8> = Vec::new();
    push_bytes(&mut buf, src);
    assert(buf@ =~= src@);
    buf
}

/// The ASCII characters `trim` removes: the whitespace bytes of the wire
/// protocol.
pub open spec fn is_space(b: u8) -> bool {
    b == 32 || b == 9 || b == 10 || b == 11 || b == 12 || b == 13
}

/// `s` without leading and trailing whitespace: the largest inner piece
/// whose first and last bytes are not spaces.
pub open spec fn spec_trim(s: Seq<u8>) -> Seq<u8>
    decreases s.len(),
{
    if s.len() == 0 {
        s
    } else if is_space(s[0]) {
        spec_trim(s.drop_first())
    } else if is_space(s.last()) {
        spec_trim(s.drop_last())
    } else {
        s
    }
}

/// Removes leading and trailing ASCII whitespace from `s`.
pub fn trim(s: &[u8]) -> (r: &[u8])
    ensures
        r@ == spec_trim(s@),
{
    let mut lo: usize = 0;
    let mut hi: usize = s.len();
    assert(s@.subrange(0, s@.len() as int) =~= s@);
    while lo < hi && (s[lo] == 32 || s[lo] == 9 || s[lo] == 10 || s[lo] == 11 || s[lo] == 12
        || s[lo] == 13)
        invariant
            0 <= lo <= hi <= s.len(),
            spec_trim(s@) == spec_trim(s@.subrange(lo as int, hi as int)),
            hi == s.len(),
        decreases hi - lo,
    {
        proof {
            let piece = s@.subrange(lo as int, hi as int);
            assert(piece.len() > 0 && is_space(piece[0]));
            assert(piece.drop_first() =~= s@.subrange(lo as int + 1, hi as int));
        }
        lo = lo + 1;
    }
    while lo < hi && (s[hi - 1] == 32 || s[hi - 1] == 9 || s[hi - 1] == 10 || s[hi - 1] == 11
        || s[hi - 1] == 12 || s[hi - 1] == 13)
        invariant
            0 <= lo <= hi <= s.len(),
            spec_trim(s@) == spec_trim(s@.subrange(lo as int, hi as int)),
            lo < hi ==> !is_space(s@[lo as int]),
        decreases hi - lo,
    {
        proof {
            let piece = s@.subrange(lo as int, hi as int);
            assert(piece.len() > 0 && !is_space(piece[0]) && is_space(piece.last()));
            assert(piece.drop_last() =~= s@.subrange(lo as int, hi as int - 1));
        }
        hi = hi - 1;
    }
    proof {
        let piece = s@.subrange(lo as int, hi as int);
        if piece.len() > 0 {
            assert(!is_space(piece[0]) && !is_space(piece.last()));
        }
        assert(spec_trim(piece) == piece);
    }
    vstd::slice::slice_subrange(s, lo, hi)
}

/// The position of the first `sep` in `s`, if any.
pub open spec fn idx_of(s: Seq<u8>, sep: u8) -> Option<int>
    decreases s.len(),
{
    if s.len() == 0 {
        None
    } else if s[0] == sep {
        Some(0)
    } else {
        match idx_of(s.drop_first(), sep) {
            Some(i) => Some(i + 1),
            None => None,
        }
    }
}

/// What `idx_of` returns: the first matching position, or a proof that
/// the byte does not occur.
pub proof fn lemma_idx_of(s: Seq<u8>, sep: u8)
    ensures
        match idx_of(s, sep) {
            Some(i) => 0 <= i < s.len() && s[i] == sep && (forall|j: int|
                0 <= j < i ==> s[j] != sep),
            None => forall|j: int| 0 <= j < s.len() ==> s[j] != sep,
        },
    decreases s.len(),
{
    if s.len() > 0 && s[0] != sep {
        let tail = s.drop_first();
        lemma_idx_of(tail, sep);
        assert(forall|j: int| 0 <= j < tail.len() ==> tail[j] == s[j + 1]);
        match idx_of(tail, sep) {
            Some(i) => {
                assert(forall|j: int| 0 < j < i + 1 ==> s[j] == tail[j - 1]);
                assert(forall|j: int| 0 <= j < i + 1 ==> s[j] != sep);
            },
            None => {
                assert(forall|j: int| 0 < j < s.len() ==> s[j] == tail[j - 1]);
                assert(forall|j: int| 0 <= j < s.len() ==> s[j] != sep);
            },
        }
    }
}

/// Finds the first occurrence of `sep` in `s`; mirrors `idx_of` exactly.
pub fn find_byte(s: &[u8], sep: u8) -> (r: Option<usize>)
    ensures
        match r {
            Some(i) => idx_of(s@, sep) == Some(i as int),
            None => idx_of(s@, sep) is None,
        },
{
    proof {
        lemma_idx_of(s@, sep);
    }
    let mut i: usize = 0;
    while i < s.len()
        invariant
            i <= s.len(),
            forall|j: int| 0 <= j < i ==> s@[j] != sep,
        decreases s.len() - i,
    {
        if s[i] == sep {
            proof {
                lemma_idx_of(s@, sep);
                match idx_of(s@, sep) {
                    Some(k) => {
                        assert(!(k < i)) by {
                            if k < i {
                                assert(s@[k] != sep);
                            }
                        }
                        assert(!(k > i)) by {
                            if k > i {
                                assert(s@[i as int] != sep);
                            }
                        }
                    },
                    None => {
                        assert(s@[i as int] != sep);
                    },
                }
            }
            return Some(i);
        }
        i = i + 1;
    }
    None
}

/// `s` with every leading and trailing double-quote byte removed.
pub open spec fn spec_trim_quotes(s: Seq<u8>) -> Seq<u8>
    decreases s.len(),
{
    if s.len() == 0 {
        s
    } else if s[0] == 34 {
        spec_trim_quotes(s.drop_first())
    } else if s.last() == 34 {
        spec_trim_quotes(s.drop_last())
    } else {
        s
    }
}

/// Removes leading and trailing double-quote bytes from `s`.
pub fn trim_quotes(s: &[u8]) -> (r: &[u8])
    ensures
        r@ == spec_trim_quotes(s@),
{
    let mut lo: usize = 0;
    let mut hi: usize = s.len();
    assert(s@.subrange(0, s@.len() as int) =~= s@);
    while lo < hi && s[lo] == 34
        invariant
            0 <= lo <= hi <= s.len(),
            spec_trim_quotes(s@) == spec_trim_quotes(s@.subrange(lo as int, hi as int)),
            hi == s.len(),
        decreases hi - lo,
    {
        proof {
            let piece = s@.subrange(lo as int, hi as int);
            assert(piece.len() > 0 && piece[0] == 34);
            assert(piece.drop_first() =~= s@.subrange(lo as int + 1, hi as int));
        }
        lo = lo + 1;
    }
    while lo < hi && s[hi - 1] == 34
        invariant
            0 <= lo <= hi <= s.len(),
            spec_trim_quotes(s@) == spec_trim_quotes(s@.subrange(lo as int, hi as int)),
            lo < hi ==> s@[lo as int] != 34,
        decreases hi - lo,
    {
        proof {
            let piece = s@.subrange(lo as int, hi as int);
            assert(piece.len() > 0 && piece[0] != 34 && piece.last() == 34);
            assert(piece.drop_last() =~= s@.subrange(lo as int, hi as int - 1));
        }
        hi = hi - 1;
    }
    proof {
        let piece = s@.subrange(lo as int, hi as int);
        if piece.len() > 0 {
            assert(piece[0] != 34 && piece.last() != 34);
        }
        assert(spec_trim_quotes(piece) == piece);
    }
    vstd::slice::slice_subrange(s, lo, hi)
}

} // verus!
