use paircnt::codec::{compress_seq, CodecError};
use paircnt::extract::{extract_pet, ExtractRes, ScoreRatio};
use paircnt::tally::{percent_hundredths, ResCounter, PairTally};

fn tags(a: &[u8], b: &[u8]) -> ExtractRes {
    ExtractRes::Tags(a.to_vec(), b.to_vec())
}

#[test]
fn counter_counts_each_kind_once() {
    let mut c = ResCounter::new();
    c.count(&tags(b"A", b"C"));
    c.count(&ExtractRes::ScoreTooLow);
    c.count(&ExtractRes::ScoreTooLow);
    c.count(&ExtractRes::LeftTooShort);
    c.count(&ExtractRes::RightTooShort);
    assert_eq!(c.linker_reads, 1);
    assert_eq!(c.score_too_low, 2);
    assert_eq!(c.left_too_short, 1);
    assert_eq!(c.right_too_short, 1);
    assert_eq!(c.total(), 5);
}

#[test]
fn percentages_two_decimals() {
    assert_eq!(percent_hundredths(1, 3), 3333);
    assert_eq!(percent_hundredths(2, 3), 6667);
    assert_eq!(percent_hundredths(3, 3), 10000);
    assert_eq!(percent_hundredths(0, 0), 0);
}

#[test]
fn end_to_end_single_read() {
    let motif = b"GTTGGAGCGATCTCCAAC";
    let mut read = b"ACGTACGTACGTACGT".to_vec();
    read.extend_from_slice(motif);
    read.extend_from_slice(b"TTTTGGGGCCCCAAAA");
    let (res, _) = extract_pet(&read, motif, 4, ScoreRatio { num: 3, den: 5 });
    let mut t = PairTally::new();
    t.record(&res).unwrap();
    assert_eq!(t.counter().linker_reads, 1);
    assert_eq!(t.total(), 1);
    let rows = t.report();
    // ACGT encodes to 228, TTTT to 0 (its reverse complement AAAA)
    assert_eq!(rows, vec![(0, 228, 1)]);
}

#[test]
fn swapped_tags_share_a_key() {
    let mut t = PairTally::new();
    t.record(&tags(b"ACGTT", b"GGGCA")).unwrap();
    t.record(&tags(b"GGGCA", b"ACGTT")).unwrap();
    let rows = t.report();
    assert_eq!(rows.len(), 1);
    assert_eq!(rows[0].2, 2);
}

#[test]
fn report_sorted_by_count_then_key() {
    let mut t = PairTally::new();
    for _ in 0..3 {
        t.record(&tags(b"CC", b"CC")).unwrap();
    }
    t.record(&tags(b"CA", b"CA")).unwrap();
    t.record(&tags(b"AA", b"AC")).unwrap();
    t.record(&ExtractRes::LeftTooShort).unwrap();
    let cc = compress_seq(b"CC").unwrap();
    let ca = compress_seq(b"CA").unwrap();
    let aa = compress_seq(b"AA").unwrap();
    let ac = compress_seq(b"AC").unwrap();
    let rows = t.report();
    assert_eq!(rows[0], (cc, cc, 3));
    let mut rest = vec![(aa.min(ac), aa.max(ac), 1), (ca, ca, 1)];
    rest.sort();
    assert_eq!(rows[1..].to_vec(), rest);
    assert_eq!(t.total(), 6);
}

#[test]
fn order_of_records_does_not_matter() {
    let results = vec![
        tags(b"ACG", b"TTA"),
        ExtractRes::ScoreTooLow,
        tags(b"GGC", b"ACG"),
        tags(b"TTA", b"ACG"),
        ExtractRes::RightTooShort,
    ];
    let mut one = PairTally::new();
    for r in &results {
        one.record(r).unwrap();
    }
    let mut two = PairTally::new();
    for r in results.iter().rev() {
        two.record(r).unwrap();
    }
    assert_eq!(one.report(), two.report());
    assert_eq!(one.counter(), two.counter());
}

#[test]
fn long_tag_is_rejected() {
    let mut t = PairTally::new();
    let long = vec![b'A'; 33];
    assert_eq!(t.record(&tags(&long, b"AC")), Err(CodecError::SequenceTooLong));
    assert_eq!(t.total(), 0);
    assert!(t.report().is_empty());
}

#[test]
fn distinct_codes_sorted_once() {
    let mut t = PairTally::new();
    t.record(&tags(b"CC", b"GA")).unwrap();
    t.record(&tags(b"CC", b"CA")).unwrap();
    let mut want = vec![
        compress_seq(b"CC").unwrap(),
        compress_seq(b"GA").unwrap(),
        compress_seq(b"CA").unwrap(),
    ];
    want.sort();
    want.dedup();
    assert_eq!(t.distinct_codes(), want);
}
