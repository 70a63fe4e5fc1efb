use paircnt::extract::{
    build_patterns, extract_pet, extract_read, judge_alignment, match_score, AlignHit, ExtractRes,
    ScoreRatio,
};

const MOTIF: &[u8] = b"GTTGGAGCGATCTCCAAC";
const RATIO: ScoreRatio = ScoreRatio { num: 3, den: 5 };

fn read_with_motif() -> Vec<u8> {
    let mut r = b"ACGTACGTACGTACGT".to_vec();
    r.extend_from_slice(MOTIF);
    r.extend_from_slice(b"TTTTGGGGCCCCAAAA");
    r
}

#[test]
fn motif_read_gives_flanking_tags() {
    let read = read_with_motif();
    let (res, hit) = extract_pet(&read, MOTIF, 4, RATIO);
    assert_eq!(hit.ystart, 16);
    assert_eq!(hit.yend, 34);
    assert_eq!(hit.score, 18);
    assert_eq!(res, ExtractRes::Tags(b"ACGT".to_vec(), b"TTTT".to_vec()));
}

#[test]
fn judge_score_too_low() {
    let read = vec![b'A'; 40];
    let hit = AlignHit { score: 10, ystart: 15, yend: 33, ylen: 40 };
    // 10 * 5 < 18 * 3
    assert_eq!(judge_alignment(&read, 18, hit, 4, RATIO), ExtractRes::ScoreTooLow);
    let hit = AlignHit { score: 11, ystart: 15, yend: 33, ylen: 40 };
    assert_ne!(judge_alignment(&read, 18, hit, 4, RATIO), ExtractRes::ScoreTooLow);
}

#[test]
fn judge_left_too_short() {
    let read = vec![b'A'; 40];
    let hit = AlignHit { score: 18, ystart: 3, yend: 21, ylen: 40 };
    assert_eq!(judge_alignment(&read, 18, hit, 4, RATIO), ExtractRes::LeftTooShort);
}

#[test]
fn judge_right_too_short() {
    let read = vec![b'A'; 40];
    let hit = AlignHit { score: 18, ystart: 10, yend: 37, ylen: 40 };
    assert_eq!(judge_alignment(&read, 18, hit, 4, RATIO), ExtractRes::RightTooShort);
    let hit = AlignHit { score: 18, ystart: 10, yend: 36, ylen: 40 };
    assert_eq!(
        judge_alignment(&read, 18, hit, 4, RATIO),
        ExtractRes::Tags(b"AAAA".to_vec(), b"AAAA".to_vec())
    );
}

#[test]
fn judge_low_score_checked_before_flanks() {
    let read = vec![b'A'; 10];
    let hit = AlignHit { score: -3, ystart: 0, yend: 10, ylen: 10 };
    assert_eq!(judge_alignment(&read, 18, hit, 4, RATIO), ExtractRes::ScoreTooLow);
}

#[test]
fn patterns_use_reverse_complements() {
    let p = build_patterns(b"AACC", b"GTTGGA");
    assert_eq!(p.len(), 2);
    assert_eq!(p[0], b"GTTGGAAACCTCCAAC".to_vec());
    assert_eq!(p[1], b"GTTGGAGGTTTCCAAC".to_vec());
}

#[test]
fn second_pattern_tried_after_first_fails() {
    let p = build_patterns(b"AACC", b"GTTGGA");
    let mut read = b"CATCATCATCAT".to_vec();
    read.extend_from_slice(&p[1]);
    read.extend_from_slice(b"GACGACGACGAC");
    let r = extract_read(&read, &p, 5, RATIO);
    assert_eq!(r.attempts, 2);
    assert_eq!(r.outcome, ExtractRes::Tags(b"ATCAT".to_vec(), b"GACGA".to_vec()));
}

#[test]
fn first_pattern_stops_search() {
    let p = build_patterns(b"AACC", b"GTTGGA");
    let mut read = b"CATCATCATCAT".to_vec();
    read.extend_from_slice(&p[0]);
    read.extend_from_slice(b"GACGACGACGAC");
    let r = extract_read(&read, &p, 5, RATIO);
    assert_eq!(r.attempts, 1);
    assert_eq!(r.hit.ystart, 12);
}

#[test]
fn no_match_reports_last_attempt() {
    let p = build_patterns(b"AACC", b"GTTGGA");
    let read = vec![b'C'; 30];
    let r = extract_read(&read, &p, 5, RATIO);
    assert_eq!(r.attempts, 2);
    assert_eq!(r.outcome, ExtractRes::ScoreTooLow);
}

#[test]
fn base_scores() {
    assert_eq!(match_score(b'A', b'A'), 1);
    assert_eq!(match_score(b'A', b'C'), -1);
}

#[test]
fn cut_tags_have_flanking_length() {
    let read = read_with_motif();
    for flanking in [1usize, 4, 16] {
        let (res, hit) = extract_pet(&read, MOTIF, flanking, RATIO);
        assert!(hit.ystart <= hit.yend && hit.yend <= hit.ylen && hit.ylen == read.len());
        match res {
            ExtractRes::Tags(l, r) => {
                assert_eq!(l.len(), flanking);
                assert_eq!(r.len(), flanking);
            }
            other => panic!("unexpected {:?}", other),
        }
    }
    let (res, _) = extract_pet(&read, MOTIF, 17, RATIO);
    assert_eq!(res, ExtractRes::LeftTooShort);
}
