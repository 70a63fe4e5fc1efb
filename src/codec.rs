//! Two-bit packing of short DNA sequences into a `u64`, with the
//! orientation-independent (canonical) choice between a sequence and its
//! reverse complement.
use vstd::prelude::*;

verus! {

/// Longest sequence a code can hold: two bits per base in 64 bits.
pub const MAX_CODE_LEN: usize = 32;

/// Failure of [`compress_seq`].
#[derive(Debug, Clone, Copy, PartialEq, Eq, Structural)]
pub enum CodecError {
    /// The sequence has more bases than a code can hold.
    SequenceTooLong,
}

/// Two-bit value of a base: A=0, C=1, G=2, T (or U)=3, either case.
/// Any other byte maps to the sentinel 4.
pub open spec fn base_value(b: u8) -> u64 {
    if b == 65 || b == 97 {
        0
    } else if b == 67 || b == 99 {
        1
    } else if b == 71 || b == 103 {
        2
    } else if b == 84 || b == 85 || b == 116 || b == 117 {
        3
    } else {
        4
    }
}

/// Value a base contributes to the reverse-complement code: `3 - v` for a
/// real base; the sentinel has no complement and stays the sentinel.
pub open spec fn complement_value(v: u64) -> u64 {
    if v <= 3 {
        (3 - v) as u64
    } else {
        4
    }
}

/// Forward code of the first `k` bases: base `i` sits at bits `2i`.
pub open spec fn forward_fold(s: Seq<u8>, k: int) -> u64
    decreases k,
{
    if k <= 0 {
        0
    } else {
        forward_fold(s, k - 1) | (base_value(s[k - 1]) << ((2 * (k - 1)) as u64))
    }
}

/// Reverse-complement code built from the first `k` bases: base `i` is
/// complemented and sits at bits `2 (len - 1 - i)`.
pub open spec fn reverse_fold(s: Seq<u8>, k: int) -> u64
    decreases k,
{
    if k <= 0 {
        0
    } else {
        reverse_fold(s, k - 1) | (complement_value(base_value(s[k - 1])) << ((2 * (s.len()
            - k)) as u64))
    }
}

pub open spec fn forward_code(s: Seq<u8>) -> u64 {
    forward_fold(s, s.len() as int)
}

pub open spec fn reverse_code(s: Seq<u8>) -> u64 {
    reverse_fold(s, s.len() as int)
}

/// The stored code: the smaller of the forward and reverse-complement codes.
pub open spec fn canonical_code(s: Seq<u8>) -> u64 {
    if forward_code(s) <= reverse_code(s) {
        forward_code(s)
    } else {
        reverse_code(s)
    }
}

/// Two-bit field number `i` of a code.
pub open spec fn digit(code: u64, i: int) -> u64 {
    (code >> ((2 * i) as u64)) & 3
}

/// Base letter of a two-bit value.
pub open spec fn base_char(d: u64) -> u8 {
    if d == 0 {
        65
    } else if d == 1 {
        67
    } else if d == 2 {
        71
    } else {
        84
    }
}

/// The `len` bases that a code spells, lowest bits first.
pub open spec fn decoded(code: u64, len: nat) -> Seq<u8> {
    Seq::new(len, |i: int| base_char(digit(code, i)))
}

pub open spec fn is_acgt(b: u8) -> bool {
    b == 65 || b == 67 || b == 71 || b == 84
}

/// Watson-Crick partner of an upper-case base.
pub open spec fn complement_base(b: u8) -> u8 {
    if b == 65 {
        84
    } else if b == 67 {
        71
    } else if b == 71 {
        67
    } else {
        65
    }
}

pub open spec fn reverse_complement(s: Seq<u8>) -> Seq<u8> {
    Seq::new(s.len(), |i: int| complement_base(s[s.len() - 1 - i]))
}

/// Canonical ordering of two codes: the smaller one first.
pub open spec fn ordered_pair(a: u64, b: u64) -> (u64, u64) {
    if a <= b {
        (a, b)
    } else {
        (b, a)
    }
}

fn base_value_of(b: u8) -> (r: u64)
    ensures
        r == base_value(b),
{
    if b == 65u8 || b == 97u8 {
        0
    } else if b == 67u8 || b == 99u8 {
        1
    } else if b == 71u8 || b == 103u8 {
        2
    } else if b == 84u8 || b == 85u8 || b == 116u8 || b == 117u8 {
        3
    } else {
        4
    }
}

/// Packs `seq` two bits per base and returns the smaller of its forward and
/// reverse-complement codes. Bases outside ACGT(U) are packed as the sentinel
/// value 4 rather than rejected. Fails only when `seq` is longer than 32.
pub fn compress_seq(seq: &[u8]) -> (r: Result<u64, CodecError>)
    ensures
        seq@.len() > MAX_CODE_LEN <==> r is Err,
        r is Ok ==> r->Ok_0 == canonical_code(seq@),
        r is Err ==> r->Err_0 == CodecError::SequenceTooLong,
{
    let n = seq.len();
    if n > MAX_CODE_LEN {
        return Err(CodecError::SequenceTooLong);
    }
    let mut res: u64 = 0;
    let mut res_rc: u64 = 0;
    let mut i: usize = 0;
    while i < n
        invariant
            n == seq@.len(),
            n <= 32,
            i <= n,
            res == forward_fold(seq@, i as int),
            res_rc == reverse_fold(seq@, i as int),
        decreases n - i,
    {
        let m = base_value_of(seq[i]);
        let c: u64 = if m <= 3 { 3 - m } else { 4 };
        res = res | (m << (2 * i) as u64);
        res_rc = res_rc | (c << (2 * (n - 1 - i)) as u64);
        i += 1;
    }
    if res <= res_rc {
        Ok(res)
    } else {
        Ok(res_rc)
    }
}

fn base_char_of(d: u64) -> (r: u8)
    ensures
        r == base_char(d),
{
    if d == 0 {
        65u8
    } else if d == 1 {
        67u8
    } else if d == 2 {
        71u8
    } else {
        84u8
    }
}

/// Spells out the first `len` bases of `code`.
pub fn recover_seq(code: u64, len: usize) -> (r: Vec<u8>)
    requires
        len <= MAX_CODE_LEN,
    ensures
        r@ == decoded(code, len as nat),
{
    let mut out: Vec<u8> = Vec::with_capacity(len);
    let mut i: usize = 0;
    while i < len
        invariant
            i <= len,
            len <= 32,
            out@ == decoded(code, i as nat),
        decreases len - i,
    {
        let d: u64 = (code >> (2 * i) as u64) & 3;
        out.push(base_char_of(d));
        assert(out@ =~= decoded(code, (i + 1) as nat));
        i += 1;
    }
    out
}

/// Orders two codes so that the smaller comes first.
pub fn canonical_pair(a: u64, b: u64) -> (r: (u64, u64))
    ensures
        r == ordered_pair(a, b),
{
    if a <= b {
        (a, b)
    } else {
        (b, a)
    }
}

proof fn lemma_digit_of_or(a: u64, c: u64, p: u64, i: u64)
    by (bit_vector)
    requires
        c <= 3,
        p < 32,
        i < 32,
    ensures
        i != p ==> ((a | (c << (2 * p))) >> (2 * i)) & 3 == (a >> (2 * i)) & 3,
        (i == p && (a >> (2 * i)) & 3 == 0) ==> ((a | (c << (2 * p))) >> (2 * i)) & 3 == c,
{
}

proof fn lemma_forward_digits(s: Seq<u8>, k: int)
    requires
        0 <= k <= s.len() <= 32,
        forall|j: int| 0 <= j < s.len() ==> is_acgt(#[trigger] s[j]),
    ensures
        forall|i: int|
            0 <= i < 32 ==> #[trigger] digit(forward_fold(s, k), i) == if i < k {
                base_value(s[i])
            } else {
                0
            },
    decreases k,
{
    if k == 0 {
        assert forall|i: int| 0 <= i < 32 implies #[trigger] digit(0, i) == 0 by {
            let sh = (2 * i) as u64;
            assert((0u64 >> sh) & 3 == 0) by (bit_vector);
        }
    } else {
        lemma_forward_digits(s, k - 1);
        let a = forward_fold(s, k - 1);
        let c = base_value(s[k - 1]);
        assert forall|i: int| 0 <= i < 32 implies #[trigger] digit(forward_fold(s, k), i) == if i
            < k {
            base_value(s[i])
        } else {
            0
        } by {
            lemma_digit_of_or(a, c, (k - 1) as u64, i as u64);
            assert(digit(a, i) == if i < k - 1 {
                base_value(s[i])
            } else {
                0
            });
        }
    }
}

proof fn lemma_reverse_digits(s: Seq<u8>, k: int)
    requires
        0 <= k <= s.len() <= 32,
        forall|j: int| 0 <= j < s.len() ==> is_acgt(#[trigger] s[j]),
    ensures
        forall|i: int|
            0 <= i < 32 ==> #[trigger] digit(reverse_fold(s, k), i) == if s.len() - k <= i
                < s.len() {
                complement_value(base_value(s[s.len() - 1 - i]))
            } else {
                0
            },
    decreases k,
{
    let n = s.len() as int;
    if k == 0 {
        assert forall|i: int| 0 <= i < 32 implies #[trigger] digit(0, i) == 0 by {
            let sh = (2 * i) as u64;
            assert((0u64 >> sh) & 3 == 0) by (bit_vector);
        }
    } else {
        lemma_reverse_digits(s, k - 1);
        let a = reverse_fold(s, k - 1);
        let c = complement_value(base_value(s[k - 1]));
        assert forall|i: int| 0 <= i < 32 implies #[trigger] digit(reverse_fold(s, k), i) == if n
            - k <= i < n {
            complement_value(base_value(s[n - 1 - i]))
        } else {
            0
        } by {
            lemma_digit_of_or(a, c, (n - k) as u64, i as u64);
            assert(digit(a, i) == if n - (k - 1) <= i < n {
                complement_value(base_value(s[n - 1 - i]))
            } else {
                0
            });
        }
    }
}

/// Decoding a canonical code gives back the sequence itself when its forward
/// code is the smaller one, and its reverse complement otherwise: never a
/// third sequence.
pub proof fn lemma_decode_canonical(s: Seq<u8>)
    requires
        s.len() <= MAX_CODE_LEN,
        forall|j: int| 0 <= j < s.len() ==> is_acgt(#[trigger] s[j]),
    ensures
        decoded(canonical_code(s), s.len()) == if forward_code(s) <= reverse_code(s) {
            s
        } else {
            reverse_complement(s)
        },
{
    let n = s.len() as int;
    lemma_forward_digits(s, n);
    lemma_reverse_digits(s, n);
    if forward_code(s) <= reverse_code(s) {
        assert forall|i: int| 0 <= i < n implies decoded(forward_code(s), n as nat)[i] == s[i] by {
            assert(digit(forward_code(s), i) == base_value(s[i]));
        }
        assert(decoded(forward_code(s), n as nat) =~= s);
    } else {
        assert forall|i: int| 0 <= i < n implies decoded(reverse_code(s), n as nat)[i]
            == reverse_complement(s)[i] by {
            assert(digit(reverse_code(s), i) == complement_value(base_value(s[n - 1 - i])));
            assert(is_acgt(s[n - 1 - i]));
        }
        assert(decoded(reverse_code(s), n as nat) =~= reverse_complement(s));
    }
}

/// The canonical pair of two sequences' codes does not depend on which of
/// the two came first.
pub proof fn lemma_pair_symmetric(a: Seq<u8>, b: Seq<u8>)
    ensures
        ordered_pair(canonical_code(a), canonical_code(b)) == ordered_pair(
            canonical_code(b),
            canonical_code(a),
        ),
{
}

} // verus!
