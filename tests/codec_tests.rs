use paircnt::codec::{canonical_pair, recover_seq, compress_seq, CodecError};

fn revcomp(s: &[u8]) -> Vec<u8> {
    s.iter()
        .rev()
        .map(|b| match b {
            b'A' => b'T',
            b'C' => b'G',
            b'G' => b'C',
            _ => b'A',
        })
        .collect()
}

#[test]
fn encode_palindrome_value() {
    // A=0 at bits 0, C=1 at bits 2, G=2 at bits 4, T=3 at bits 6.
    assert_eq!(compress_seq(b"ACGT"), Ok(228));
}

#[test]
fn encode_picks_smaller_strand() {
    assert_eq!(compress_seq(b"AAAA"), Ok(0));
    assert_eq!(compress_seq(b"TTTT"), Ok(0));
    // forward code of CA is 1, reverse complement TG is 3 + 2*4 = 11
    assert_eq!(compress_seq(b"CA"), Ok(1));
    assert_eq!(compress_seq(b"TG"), Ok(1));
}

#[test]
fn encode_lower_case_same_as_upper() {
    assert_eq!(compress_seq(b"acgtt"), compress_seq(b"ACGTT"));
}

#[test]
fn encode_empty_is_zero() {
    assert_eq!(compress_seq(b""), Ok(0));
}

#[test]
fn encode_length_limit() {
    let s32 = vec![b'C'; 32];
    let s33 = vec![b'C'; 33];
    assert!(compress_seq(&s32).is_ok());
    assert_eq!(compress_seq(&s33), Err(CodecError::SequenceTooLong));
}

#[test]
fn decode_spells_bases() {
    assert_eq!(recover_seq(228, 4), b"ACGT".to_vec());
    assert_eq!(recover_seq(0, 3), b"AAA".to_vec());
    assert_eq!(recover_seq(u64::MAX, 32), vec![b'T'; 32]);
    assert_eq!(recover_seq(228, 0), Vec::<u8>::new());
}

#[test]
fn decode_of_encode_is_strand_or_revcomp() {
    for s in [&b"ACCGTTAGC"[..], b"GGGA", b"TTTTGGGGCCCCAAAAACGTACGTACGTACGT", b"CAT"] {
        let code = compress_seq(s).unwrap();
        let back = recover_seq(code, s.len());
        let rc = revcomp(s);
        assert!(back == s.to_vec() || back == rc);
        let fwd_smaller = compress_seq(s).unwrap() == encode_forward(s);
        if fwd_smaller {
            assert_eq!(back, s.to_vec());
        } else {
            assert_eq!(back, rc);
        }
    }
}

fn encode_forward(s: &[u8]) -> u64 {
    let mut r = 0u64;
    for (i, b) in s.iter().enumerate() {
        let v = match b {
            b'A' => 0,
            b'C' => 1,
            b'G' => 2,
            _ => 3,
        };
        r |= v << (2 * i);
    }
    r
}

#[test]
fn decode_of_encode_gives_revcomp_when_smaller() {
    // forward code of TTT is 63, reverse complement AAA is 0
    assert_eq!(recover_seq(compress_seq(b"TTT").unwrap(), 3), b"AAA".to_vec());
    assert_eq!(recover_seq(compress_seq(b"AAC").unwrap(), 3), b"AAC".to_vec());
}

#[test]
fn pair_key_symmetric() {
    let a = compress_seq(b"ACGTTT").unwrap();
    let b = compress_seq(b"GGGCAT").unwrap();
    assert_eq!(canonical_pair(a, b), canonical_pair(b, a));
    assert_eq!(canonical_pair(9, 3), (3, 9));
    assert_eq!(canonical_pair(3, 3), (3, 3));
}
