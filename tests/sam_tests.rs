use paircnt::edges::{parse_count_line, EdgeTable};
use paircnt::pipeline::{Action, Collector, Event};
use paircnt::sam::{
    classify, parse_bwa_sam_rec, ClassifyError, LoadError, Node, NodeTable, NotValidType,
    SamError, Thresholds,
};
use paircnt::text::{bytes_eq, parse_u64, split_fields};

const TH: Thresholds = Thresholds { min_mapq: 0, max_mismatch: 0, max_aligned: 1 };

#[test]
fn parses_mandatory_fields() {
    let r = parse_bwa_sam_rec(b"12\t0\tbait_a\t5\t60\t13M\t*\t0\t0\tACGT\tIIII").unwrap();
    assert_eq!(r.qname, 12);
    assert_eq!(r.rname, b"bait_a".to_vec());
    assert_eq!(r.mapq, 60);
    assert_eq!(r.n_mismatch, 0);
    assert_eq!(r.n_aligned, 1);
}

#[test]
fn parses_nm_and_xa_tags() {
    let r = parse_bwa_sam_rec(
        b"3\t0\tprey_b\t5\t20\t13M\t*\t0\t0\tACGT\tIIII\tNM:i:2\tMD:Z:13\tXA:Z:chr1,+1,13M,0;chr2,-5,13M,1;",
    )
    .unwrap();
    assert_eq!(r.n_mismatch, 2);
    assert_eq!(r.n_aligned, 4);
}

#[test]
fn unmapped_read_has_no_alignment() {
    let r = parse_bwa_sam_rec(b"7\t4\t*\t0\t0\t*\t*\t0\t0\tACGT\tIIII").unwrap();
    assert_eq!(r.n_aligned, 0);
}

#[test]
fn parse_errors() {
    assert_eq!(parse_bwa_sam_rec(b"1\t0\tx"), Err(SamError::MissingField));
    assert_eq!(parse_bwa_sam_rec(b"r1\t0\tx\t1\t3"), Err(SamError::BadReadId));
    assert_eq!(parse_bwa_sam_rec(b"1\t0\tx\t1\t300"), Err(SamError::BadMapq));
    assert_eq!(
        parse_bwa_sam_rec(b"1\t0\tx\t1\t3\t.\t.\t.\t.\t.\t.\tNM:i:x"),
        Err(SamError::BadMismatch)
    );
}

#[test]
fn unmapped_wins_over_low_mapq() {
    let r = parse_bwa_sam_rec(b"7\t4\t*\t0\t0\t*\t*\t0\t0\tACGT\tIIII\tNM:i:9").unwrap();
    let th = Thresholds { min_mapq: 30, max_mismatch: 0, max_aligned: 1 };
    assert_eq!(classify(&r, th), Ok(Node::NotValid(NotValidType::NotFound)));
}

#[test]
fn classification_order() {
    let th = Thresholds { min_mapq: 10, max_mismatch: 1, max_aligned: 1 };
    let low = parse_bwa_sam_rec(b"1\t0\tbait_a\t1\t5\t.\t.\t.\t.\t.\t.\tNM:i:4").unwrap();
    assert_eq!(classify(&low, th), Ok(Node::NotValid(NotValidType::MapqTooSmall(5))));
    let mm = parse_bwa_sam_rec(b"1\t0\tbait_a\t1\t50\t.\t.\t.\t.\t.\t.\tNM:i:4\tXA:Z:a;b").unwrap();
    assert_eq!(classify(&mm, th), Ok(Node::NotValid(NotValidType::TooManyMisMatch(4))));
    let al = parse_bwa_sam_rec(b"1\t0\tbait_a\t1\t50\t.\t.\t.\t.\t.\t.\tNM:i:1\tXA:Z:a;b").unwrap();
    assert_eq!(classify(&al, th), Ok(Node::NotValid(NotValidType::TooManyAligned(3))));
    let ok = parse_bwa_sam_rec(b"1\t0\tprey_x\t1\t50").unwrap();
    assert_eq!(classify(&ok, th), Ok(Node::Prey(b"prey_x".to_vec())));
    let bad = parse_bwa_sam_rec(b"1\t0\tgene_x\t1\t50").unwrap();
    assert_eq!(classify(&bad, th), Err(ClassifyError::UnknownPrefix));
}

#[test]
fn node_table_loads_lines() {
    let mut t = NodeTable::new();
    assert_eq!(t.load_line(b"@SQ\tSN:bait_a", TH), Ok(()));
    assert_eq!(t.load_line(b"5\t0\tbait_a\t1\t60", TH), Ok(()));
    assert_eq!(t.get(5), Some(&Node::Bait(b"bait_a".to_vec())));
    assert_eq!(t.get(6), None);
    assert_eq!(
        t.load_line(b"6\t0\tother\t1\t60", TH),
        Err(LoadError::Classify(ClassifyError::UnknownPrefix))
    );
    assert_eq!(t.load_line(b"6\t0", TH), Err(LoadError::Parse(SamError::MissingField)));
}

#[test]
fn unmapped_and_bait_pair_counts_once() {
    let mut t = NodeTable::new();
    t.load_line(b"7\t4\t*\t0\t0\t*\t*\t0\t0\tACGT\tIIII", TH).unwrap();
    t.load_line(b"9\t0\tbait_g\t1\t60\t13M\t*\t0\t0\tACGT\tIIII", TH).unwrap();
    assert_eq!(t.get(7), Some(&Node::NotValid(NotValidType::NotFound)));
    let mut e = EdgeTable::new();
    e.count_ids(&t, 7, 9, 5);
    assert_eq!(e.stats().n_bait_nv_pair, 1);
    assert_eq!(e.stats().n_valid_pair, 0);
    assert!(e.sorted_edges().is_empty());
}

#[test]
fn bait_prey_edges_weighted() {
    let b = Node::Bait(b"bait_a".to_vec());
    let p = Node::Prey(b"prey_b".to_vec());
    let q = Node::Prey(b"prey_c".to_vec());
    let nv = Node::NotValid(NotValidType::NotFound);
    let mut e = EdgeTable::new();
    e.count(&b, &p, 5);
    e.count(&p, &b, 2);
    e.count(&q, &b, 9);
    e.count(&p, &nv, 4);
    e.count(&nv, &nv, 1);
    e.count(&b, &b, 3);
    let s = e.stats();
    assert_eq!(s.n_valid_pair, 3);
    assert_eq!(s.n_prey_nv_pair, 1);
    assert_eq!(s.n_bait_nv_pair, 0);
    assert_eq!(s.n_nv_pair, 1);
    assert_eq!(s.n_same_role, 1);
    assert_eq!(s.n_valid_pair + s.n_prey_nv_pair + s.n_bait_nv_pair + s.n_nv_pair, 5);
    let edges = e.sorted_edges();
    assert_eq!(edges.len(), 2);
    assert_eq!(edges[0].bait, b"bait_a".to_vec());
    assert_eq!(edges[0].prey, b"prey_c".to_vec());
    assert_eq!(edges[0].count, 9);
    assert_eq!(edges[1].prey, b"prey_b".to_vec());
    assert_eq!(edges[1].count, 7);
    assert_eq!(e.weight(), 16);
}

#[test]
fn missing_record_counts_as_not_valid() {
    let t = NodeTable::new();
    let mut e = EdgeTable::new();
    e.count_ids(&t, 1, 2, 3);
    assert_eq!(e.stats().n_nv_pair, 1);
}

#[test]
fn collector_stops_when_all_workers_done() {
    let mut c = Collector::new(2);
    assert_eq!(c.on_event(Event::Delivered), Action::Continue);
    assert_eq!(c.on_event(Event::WorkerDone), Action::Continue);
    assert_eq!(c.on_event(Event::Delivered), Action::Continue);
    assert_eq!(c.on_event(Event::WorkerDone), Action::Stop);
    assert_eq!(c.received, 2);
}

#[test]
fn collector_stops_on_idle() {
    let mut c = Collector::new(3);
    assert_eq!(c.on_event(Event::Idle), Action::Stop);
}

#[test]
fn text_helpers() {
    assert_eq!(
        split_fields(b"a\tbc\t\td", b'\t'),
        vec![b"a".to_vec(), b"bc".to_vec(), vec![], b"d".to_vec()]
    );
    assert_eq!(parse_u64(b"18446744073709551615"), Some(u64::MAX));
    assert_eq!(parse_u64(b"18446744073709551616"), None);
    assert_eq!(parse_u64(b""), None);
    assert_eq!(parse_u64(b"1a"), None);
    assert!(bytes_eq(b"ab", b"ab"));
    assert!(!bytes_eq(b"ab", b"abc"));
}

#[test]
fn count_lines() {
    assert_eq!(parse_count_line(b"7\t9\t5"), Some((7, 9, 5)));
    assert_eq!(parse_count_line(b"7\t9\t5\textra"), Some((7, 9, 5)));
    assert_eq!(parse_count_line(b"7\t9"), None);
    assert_eq!(parse_count_line(b"7\tx\t5"), None);
}

#[test]
fn node_labels() {
    assert_eq!(Node::Bait(b"bait_a".to_vec()).label(), b"Bait:bait_a".to_vec());
    assert_eq!(Node::Prey(b"prey_b".to_vec()).label(), b"Prey:prey_b".to_vec());
    assert_eq!(Node::NotValid(NotValidType::NotFound).label(), b"NotFound".to_vec());
    assert_eq!(Node::NotValid(NotValidType::MapqTooSmall(3)).label(), b"MAPQTooSmall:3".to_vec());
    assert_eq!(
        Node::NotValid(NotValidType::TooManyMisMatch(120)).label(),
        b"TooManyMisMatch:120".to_vec()
    );
    assert_eq!(
        Node::NotValid(NotValidType::TooManyAligned(10)).label(),
        b"TooManyAligned:10".to_vec()
    );
}

#[test]
fn large_count_on_ignored_pair_accepted() {
    let b = Node::Bait(b"bait_a".to_vec());
    let p = Node::Prey(b"prey_b".to_vec());
    let nv = Node::NotValid(NotValidType::NotFound);
    let mut e = EdgeTable::new();
    e.count(&b, &p, u64::MAX);
    e.count(&b, &nv, u64::MAX);
    e.count(&b, &b, u64::MAX);
    assert_eq!(e.weight(), u64::MAX);
    assert_eq!(e.stats().n_bait_nv_pair, 1);
    assert_eq!(e.stats().n_same_role, 1);
    assert_eq!(e.sorted_edges().len(), 1);
}

#[test]
fn every_loaded_read_is_stored() {
    let mut t = NodeTable::new();
    t.load_line(b"1\t0\tbait_a\t1\t60", TH).unwrap();
    t.load_line(b"2\t0\tprey_b\t1\t60\t.\t.\t.\t.\t.\t.\tNM:i:3", TH).unwrap();
    t.load_line(b"1\t0\tprey_c\t1\t60", TH).unwrap();
    assert_eq!(t.get(1), Some(&Node::Prey(b"prey_c".to_vec())));
    assert_eq!(t.get(2), Some(&Node::NotValid(NotValidType::TooManyMisMatch(3))));
}

#[test]
fn loaded_unmapped_read_is_not_found() {
    let mut t = NodeTable::new();
    let th = Thresholds { min_mapq: 30, max_mismatch: 0, max_aligned: 0 };
    t.load_line(b"7\t4\t*\t0\t0\t*\t*\t0\t0\tACGT\t~~~~\tNM:i:5", th).unwrap();
    assert_eq!(t.get(7), Some(&Node::NotValid(NotValidType::NotFound)));
}
