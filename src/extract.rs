//! Locating the linker motif in a read and cutting out the two flanking tags.
use crate::text::{append, copy_range};
use vstd::prelude::*;

verus! {

/// What the semiglobal aligner reports of one alignment: its score and the
/// span `[ystart, yend)` it covers in the read of length `ylen`.
#[derive(Debug, Clone, Copy, PartialEq, Eq, Structural)]
pub struct AlignHit {
    pub score: i32,
    pub ystart: usize,
    pub yend: usize,
    pub ylen: usize,
}

/// Minimum alignment score per pattern base, as the fraction `num / den`.
#[derive(Debug, Clone, Copy, PartialEq, Eq, Structural)]
pub struct ScoreRatio {
    pub num: u32,
    pub den: u32,
}

/// Result of cutting the tags around one pattern.
#[derive(Debug, Clone, PartialEq, Eq)]
pub enum ExtractRes {
    Tags(Vec<u8>, Vec<u8>),
    ScoreTooLow,
    LeftTooShort,
    RightTooShort,
}

/// Result of trying the patterns on one read, in order, up to the first
/// success: the outcome and alignment of the last attempt, and how many
/// patterns were tried.
#[derive(Debug, Clone, PartialEq, Eq)]
pub struct ReadResult {
    pub outcome: ExtractRes,
    pub hit: AlignHit,
    pub attempts: usize,
}

/// The best semiglobal alignment of a pattern against a read, as the aligner
/// computes it.
pub uninterp spec fn semiglobal_of(pattern: Seq<u8>, read: Seq<u8>) -> AlignHit;

/// Score of aligning one pattern base against one read base.
pub open spec fn base_score(a: u8, b: u8) -> int {
    if a == b {
        1
    } else {
        -1
    }
}

pub fn match_score(a: u8, b: u8) -> (r: i32)
    ensures
        r == base_score(a, b),
{
    if a == b {
        1
    } else {
        -1
    }
}

/// Relies on bio's `Aligner::with_capacity` and `Aligner::semiglobal`, with
/// gap open and gap extend penalties of -1 and `match_score`: the result
/// depends on the pattern and the read alone, and its traceback leaves a
/// span with `ystart <= yend <= ylen`, where `ylen` is the read's length.
#[verifier::external_body]
fn align_semiglobal(pattern: &[u8], read: &[u8]) -> (r: AlignHit)
    ensures
        r == semiglobal_of(pattern@, read@),
        r.ystart <= r.yend,
        r.yend <= r.ylen,
        r.ylen == read@.len(),
{
    let mut aligner = bio::alignment::pairwise::Aligner::with_capacity(
        read.len(),
        pattern.len(),
        -1,
        -1,
        |a: u8, b: u8| match_score(a, b),
    );
    let a = aligner.semiglobal(pattern, read);
    AlignHit { score: a.score, ystart: a.ystart, yend: a.yend, ylen: a.ylen }
}

/// The score is below `pattern_len * num / den`.
pub open spec fn score_too_low(score: i32, pattern_len: int, ratio: ScoreRatio) -> bool {
    score * ratio.den < pattern_len * ratio.num
}

/// The alignment leaves `flanking` bases on both sides of the match.
pub open spec fn accepts(
    read_len: int,
    pattern_len: int,
    hit: AlignHit,
    flanking: int,
    ratio: ScoreRatio,
) -> bool {
    !score_too_low(hit.score, pattern_len, ratio) && hit.ystart >= flanking && hit.yend
        + flanking <= read_len
}

/// The outcome that an alignment `hit` of a pattern of `pattern_len` bases
/// against `read` calls for, the checks taken in order.
pub open spec fn outcome_spec(
    r: ExtractRes,
    read: Seq<u8>,
    pattern_len: int,
    hit: AlignHit,
    flanking: int,
    ratio: ScoreRatio,
) -> bool {
    if score_too_low(hit.score, pattern_len, ratio) {
        r is ScoreTooLow
    } else if hit.ystart < flanking {
        r is LeftTooShort
    } else if hit.yend + flanking > read.len() {
        r is RightTooShort
    } else {
        &&& r is Tags
        &&& r->Tags_0@ == read.subrange(hit.ystart - flanking, hit.ystart as int)
        &&& r->Tags_1@ == read.subrange(hit.yend as int, hit.yend + flanking)
    }
}

/// Decides the outcome of one alignment of a pattern of `pattern_len` bases
/// against `read`, and cuts the tags when it is accepted.
pub fn judge_alignment(
    read: &[u8],
    pattern_len: usize,
    hit: AlignHit,
    flanking: usize,
    ratio: ScoreRatio,
) -> (r: ExtractRes)
    requires
        hit.ystart <= hit.yend <= read@.len(),
    ensures
        outcome_spec(r, read@, pattern_len as int, hit, flanking as int, ratio),
        r is Tags <==> accepts(read@.len() as int, pattern_len as int, hit, flanking as int, ratio),
{
    let sc = hit.score as i128;
    let den = ratio.den as i128;
    let plen = pattern_len as i128;
    let num = ratio.num as i128;
    proof {
        assert(-0x8000_0000_0000_0000_0000 <= sc * den <= 0x8000_0000_0000_0000_0000)
            by (nonlinear_arith)
            requires
                -0x8000_0000 <= sc <= 0x8000_0000,
                0 <= den <= 0x1_0000_0000,
        ;
        assert(0 <= plen * num <= 0x1_0000_0000_0000_0000_0000_0000) by (nonlinear_arith)
            requires
                0 <= plen <= 0x1_0000_0000_0000_0000,
                0 <= num <= 0x1_0000_0000,
        ;
    }
    let lhs: i128 = sc * den;
    let rhs: i128 = plen * num;
    if lhs < rhs {
        return ExtractRes::ScoreTooLow;
    }
    if hit.ystart < flanking {
        return ExtractRes::LeftTooShort;
    }
    let left = copy_range(read, hit.ystart - flanking, hit.ystart);
    if flanking > read.len() - hit.yend {
        return ExtractRes::RightTooShort;
    }
    let right = copy_range(read, hit.yend, hit.yend + flanking);
    ExtractRes::Tags(left, right)
}

/// Aligns `pattern` against `read` and judges the alignment.
pub fn extract_pet(read: &[u8], pattern: &[u8], flanking: usize, ratio: ScoreRatio) -> (r: (
    ExtractRes,
    AlignHit,
))
    ensures
        r.1 == semiglobal_of(pattern@, read@),
        r.1.ystart <= r.1.yend,
        r.1.yend <= r.1.ylen,
        r.1.ylen == read@.len(),
        outcome_spec(r.0, read@, pattern@.len() as int, r.1, flanking as int, ratio),
        r.0 is Tags <==> accepts(read@.len() as int, pattern@.len() as int, r.1, flanking as int, ratio),
{
    let hit = align_semiglobal(pattern, read);
    let res = judge_alignment(read, pattern.len(), hit, flanking, ratio);
    (res, hit)
}

/// Tries each pattern in order and stops at the first accepted one; when none
/// is accepted, the last pattern's outcome and alignment are reported.
pub fn extract_read(read: &[u8], patterns: &Vec<Vec<u8>>, flanking: usize, ratio: ScoreRatio) -> (r:
    ReadResult)
    requires
        patterns@.len() >= 1,
    ensures
        1 <= r.attempts <= patterns@.len(),
        forall|j: int|
            0 <= j < r.attempts - 1 ==> !accepts(
                read@.len() as int,
                patterns@[j]@.len() as int,
                #[trigger] semiglobal_of(patterns@[j]@, read@),
                flanking as int,
                ratio,
            ),
        r.hit == semiglobal_of(patterns@[r.attempts - 1]@, read@),
        r.hit.ystart <= r.hit.yend,
        r.hit.yend <= r.hit.ylen,
        r.hit.ylen == read@.len(),
        outcome_spec(
            r.outcome,
            read@,
            patterns@[r.attempts - 1]@.len() as int,
            r.hit,
            flanking as int,
            ratio,
        ),
        !(r.outcome is Tags) ==> r.attempts == patterns@.len(),
{
    let n = patterns.len();
    let mut i: usize = 0;
    loop
        invariant
            n == patterns@.len(),
            i < n,
            forall|j: int|
                0 <= j < i ==> !accepts(
                    read@.len() as int,
                    patterns@[j]@.len() as int,
                    #[trigger] semiglobal_of(patterns@[j]@, read@),
                    flanking as int,
                    ratio,
                ),
        decreases patterns@.len() - i,
    {
        let (outcome, hit) = extract_pet(read, patterns[i].as_slice(), flanking, ratio);
        let done = match outcome {
            ExtractRes::Tags(_, _) => true,
            _ => false,
        };
        if done || i + 1 == n {
            return ReadResult { outcome, hit, attempts: i + 1 };
        }
        i += 1;
    }
}

/// IUPAC complement of an upper-case code; any other byte is its own
/// complement.
pub open spec fn iupac_complement_upper(b: u8) -> u8 {
    if b == 65 {
        84
    } else if b == 84 {
        65
    } else if b == 67 {
        71
    } else if b == 71 {
        67
    } else if b == 89 {
        82
    } else if b == 82 {
        89
    } else if b == 75 {
        77
    } else if b == 77 {
        75
    } else if b == 68 {
        72
    } else if b == 72 {
        68
    } else if b == 86 {
        66
    } else if b == 66 {
        86
    } else {
        b
    }
}

/// IUPAC complement that keeps the case of letters.
pub open spec fn iupac_complement(b: u8) -> u8 {
    if 97 <= b <= 122 {
        (iupac_complement_upper((b - 32) as u8) + 32) as u8
    } else {
        iupac_complement_upper(b)
    }
}

pub open spec fn iupac_revcomp(s: Seq<u8>) -> Seq<u8> {
    Seq::new(s.len(), |i: int| iupac_complement(s[s.len() - 1 - i]))
}

/// Relies on bio's `alphabets::dna::revcomp`: the text reversed, each byte
/// mapped through the IUPAC complement table, case kept, other bytes as
/// they are.
#[verifier::external_body]
fn revcomp(s: &[u8]) -> (r: Vec<u8>)
    ensures
        r@ == iupac_revcomp(s@),
{
    bio::alphabets::dna::revcomp(s)
}

/// The two patterns searched for in each read, in priority order:
/// enzyme + linker + revcomp(enzyme), then enzyme + revcomp(linker) +
/// revcomp(enzyme).
pub fn build_patterns(linker: &[u8], enzyme: &[u8]) -> (r: Vec<Vec<u8>>)
    ensures
        r@.len() == 2,
        r@[0]@ == enzyme@ + linker@ + iupac_revcomp(enzyme@),
        r@[1]@ == enzyme@ + iupac_revcomp(linker@) + iupac_revcomp(enzyme@),
{
    let e_rc = revcomp(enzyme);
    let l_rc = revcomp(linker);
    let mut first: Vec<u8> = Vec::new();
    append(&mut first, enzyme);
    append(&mut first, linker);
    append(&mut first, e_rc.as_slice());
    let mut second: Vec<u8> = Vec::new();
    append(&mut second, enzyme);
    append(&mut second, l_rc.as_slice());
    append(&mut second, e_rc.as_slice());
    let mut r: Vec<Vec<u8>> = Vec::new();
    r.push(first);
    r.push(second);
    r
}

} // verus!
