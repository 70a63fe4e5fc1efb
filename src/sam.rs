//! Reading alignment records and classifying each read as bait, prey or
//! not valid.
use crate::text::{append, copy_range, decimal_value, is_decimal, parse_u64, split_fields, split_spec, starts_with2, views};
use std::collections::HashMap;
use vstd::prelude::*;

verus! {

broadcast use vstd::std_specs::hash::group_hash_axioms;

/// The fields of an alignment line that classification reads.
#[derive(Debug, Clone, PartialEq, Eq)]
pub struct SamRec {
    pub qname: u64,
    pub rname: Vec<u8>,
    pub mapq: u8,
    pub n_mismatch: u64,
    pub n_aligned: u64,
}

/// Ways an alignment line can be malformed.
#[derive(Debug, Clone, Copy, PartialEq, Eq, Structural)]
pub enum SamError {
    /// Fewer than five tab-separated fields.
    MissingField,
    /// The read name is not a decimal number.
    BadReadId,
    /// The mapping quality is not a decimal number below 256.
    BadMapq,
    /// An `NM` tag without a decimal value in its third `:` piece.
    BadMismatch,
}

/// Why a read is not used as a node.
#[derive(Debug, Clone, Copy, PartialEq, Eq, Structural)]
pub enum NotValidType {
    NotFound,
    MapqTooSmall(u8),
    TooManyMisMatch(u64),
    TooManyAligned(u64),
}

/// Role of a read, by the reference it aligned to.
#[derive(Debug, Clone, PartialEq, Eq)]
pub enum Node {
    Bait(Vec<u8>),
    Prey(Vec<u8>),
    NotValid(NotValidType),
}

/// A reference name without the `bait_` or `prey_` prefix.
#[derive(Debug, Clone, Copy, PartialEq, Eq, Structural)]
pub enum ClassifyError {
    UnknownPrefix,
}

/// Limits a record must meet to be a node.
#[derive(Debug, Clone, Copy, PartialEq, Eq, Structural)]
pub struct Thresholds {
    pub min_mapq: u8,
    pub max_mismatch: u64,
    pub max_aligned: u64,
}

/// The unmapped reference name `*`.
pub open spec fn is_unmapped(name: Seq<u8>) -> bool {
    name == seq![42u8]
}

pub open spec fn has_prefix(s: Seq<u8>, p: Seq<u8>) -> bool {
    s.len() >= p.len() && s.subrange(0, p.len() as int) == p
}

/// `bait_`
pub open spec fn bait_prefix() -> Seq<u8> {
    seq![98u8, 97u8, 105u8, 116u8, 95u8]
}

/// `prey_`
pub open spec fn prey_prefix() -> Seq<u8> {
    seq![112u8, 114u8, 101u8, 121u8, 95u8]
}

/// Mismatch count and number of `;`-separated `XA` pieces from the
/// optional fields at index `i` on; `None` for an `NM` tag that cannot be
/// read. The scan stops at the first `XA` field.
pub open spec fn scan_tags(fs: Seq<Seq<u8>>, i: int, nm: u64) -> Option<(u64, nat)>
    decreases fs.len() - i,
{
    if i < 0 || i >= fs.len() {
        Some((nm, 0))
    } else if starts_with2(fs[i], 78, 77) {
        let parts = split_spec(fs[i], 58);
        if parts.len() >= 3 && is_decimal(parts[2]) && decimal_value(parts[2]) <= u64::MAX {
            scan_tags(fs, i + 1, decimal_value(parts[2]) as u64)
        } else {
            None
        }
    } else if starts_with2(fs[i], 88, 65) {
        Some((nm, split_spec(fs[i], 59).len()))
    } else {
        scan_tags(fs, i + 1, nm)
    }
}

/// Index of the first optional field of a line.
pub const FIRST_TAG: usize = 11;

/// One alignment for a mapped read plus the `XA` pieces, capped at
/// `u64::MAX`.
pub open spec fn aligned_count(unmapped: bool, xa: nat) -> u64 {
    let n: int = (if unmapped {
        0int
    } else {
        1int
    }) + xa;
    if n > u64::MAX {
        u64::MAX
    } else {
        n as u64
    }
}

/// The record a line describes, or why it cannot be read.
pub open spec fn sam_spec(line: Seq<u8>) -> Result<
    (u64, Seq<u8>, u8, u64, u64),
    SamError,
> {
    let fs = split_spec(line, 9);
    if fs.len() < 5 {
        Err(SamError::MissingField)
    } else if !(is_decimal(fs[0]) && decimal_value(fs[0]) <= u64::MAX) {
        Err(SamError::BadReadId)
    } else if !(is_decimal(fs[4]) && decimal_value(fs[4]) <= 255) {
        Err(SamError::BadMapq)
    } else {
        match scan_tags(fs, FIRST_TAG as int, 0) {
            None => Err(SamError::BadMismatch),
            Some((nm, xa)) => Ok(
                (
                    decimal_value(fs[0]) as u64,
                    fs[2],
                    decimal_value(fs[4]) as u8,
                    nm,
                    aligned_count(is_unmapped(fs[2]), xa),
                ),
            ),
        }
    }
}

fn is_star(s: &[u8]) -> (r: bool)
    ensures
        r <==> is_unmapped(s@),
{
    if s.len() == 1 && s[0] == 42u8 {
        assert(s@ =~= seq![42u8]);
        true
    } else {
        false
    }
}

/// Reads one tab-separated alignment line: read id (field 1, a number),
/// reference name (field 3), mapping quality (field 5), the mismatch count
/// of an `NM:i:<n>` tag and the number of `;`-separated pieces of an `XA`
/// tag among the optional fields. The alignment count is that number, plus
/// one for a mapped read.
pub fn parse_bwa_sam_rec(line: &[u8]) -> (r: Result<SamRec, SamError>)
    ensures
        match (r, sam_spec(line@)) {
            (Ok(rec), Ok((q, n, m, nm, na))) => rec.qname == q && rec.rname@ == n && rec.mapq == m
                && rec.n_mismatch == nm && rec.n_aligned == na,
            (Err(e), Err(e2)) => e == e2,
            _ => false,
        },
{
    let fs = split_fields(line, 9u8);
    let ghost gfs = views(fs@);
    assert(gfs.len() == fs@.len());
    if fs.len() < 5 {
        return Err(SamError::MissingField);
    }
    assert(gfs[0] == fs@[0]@ && gfs[2] == fs@[2]@ && gfs[4] == fs@[4]@);
    let qname = match parse_u64(fs[0].as_slice()) {
        Some(q) => q,
        None => {
            return Err(SamError::BadReadId);
        },
    };
    let mapq: u8 = match parse_u64(fs[4].as_slice()) {
        Some(m) => {
            if m > 255 {
                return Err(SamError::BadMapq);
            }
            m as u8
        },
        None => {
            return Err(SamError::BadMapq);
        },
    };
    let unmapped = is_star(fs[2].as_slice());
    let mut nm: u64 = 0;
    let mut xa: usize = 0;
    let mut done = false;
    let mut i: usize = FIRST_TAG;
    while i < fs.len() && !done
        invariant
            gfs == views(fs@),
            gfs == split_spec(line@, 9u8),
            gfs.len() >= 5,
            is_decimal(gfs[0]) && decimal_value(gfs[0]) <= u64::MAX,
            is_decimal(gfs[4]) && decimal_value(gfs[4]) <= 255,
            qname == decimal_value(gfs[0]),
            mapq == decimal_value(gfs[4]),
            unmapped == is_unmapped(gfs[2]),
            FIRST_TAG <= i,
            !done ==> scan_tags(gfs, FIRST_TAG as int, 0) == scan_tags(gfs, i as int, nm),
            !done ==> xa == 0,
            done ==> scan_tags(gfs, FIRST_TAG as int, 0) == Some::<(u64, nat)>((nm, xa as nat)),
        decreases fs@.len() - i,
    {
        let f = fs[i].as_slice();
        assert(gfs[i as int] == f@);
        if f.len() >= 2 && f[0] == 78u8 && f[1] == 77u8 {
            let parts = split_fields(f, 58u8);
            assert(views(parts@).len() == parts@.len());
            if parts.len() < 3 {
                assert(scan_tags(gfs, i as int, nm) is None);
                assert(scan_tags(split_spec(line@, 9), FIRST_TAG as int, 0) is None);
                return Err(SamError::BadMismatch);
            }
            assert(views(parts@)[2] == parts@[2]@);
            match parse_u64(parts[2].as_slice()) {
                Some(v) => {
                    nm = v;
                },
                None => {
                    assert(scan_tags(gfs, i as int, nm) is None);
                    assert(scan_tags(split_spec(line@, 9), FIRST_TAG as int, 0) is None);
                    return Err(SamError::BadMismatch);
                },
            }
        } else if f.len() >= 2 && f[0] == 88u8 && f[1] == 65u8 {
            let pieces = split_fields(f, 59u8);
            assert(views(pieces@).len() == pieces@.len());
            xa = pieces.len();
            done = true;
        }
        i += 1;
    }
    let base: u64 = if unmapped { 0 } else { 1 };
    let xa64 = xa as u64;
    let n_aligned: u64 = if xa64 > u64::MAX - base { u64::MAX } else { base + xa64 };
    let rname = copy_range(fs[2].as_slice(), 0, fs[2].len());
    assert(rname@ == gfs[2]);
    Ok(SamRec { qname, rname, mapq, n_mismatch: nm, n_aligned })
}

/// The classification a record calls for, the checks taken in order: an
/// unmapped read is `NotFound` whatever else holds of it.
pub open spec fn classified(
    r: Result<Node, ClassifyError>,
    rname: Seq<u8>,
    mapq: u8,
    nm: u64,
    na: u64,
    th: Thresholds,
) -> bool {
    if is_unmapped(rname) {
        r == Ok::<Node, ClassifyError>(Node::NotValid(NotValidType::NotFound))
    } else if mapq < th.min_mapq {
        r == Ok::<Node, ClassifyError>(Node::NotValid(NotValidType::MapqTooSmall(mapq)))
    } else if nm > th.max_mismatch {
        r == Ok::<Node, ClassifyError>(Node::NotValid(NotValidType::TooManyMisMatch(nm)))
    } else if na > th.max_aligned {
        r == Ok::<Node, ClassifyError>(Node::NotValid(NotValidType::TooManyAligned(na)))
    } else if has_prefix(rname, bait_prefix()) {
        r is Ok && r->Ok_0 is Bait && r->Ok_0->Bait_0@ == rname
    } else if has_prefix(rname, prey_prefix()) {
        r is Ok && r->Ok_0 is Prey && r->Ok_0->Prey_0@ == rname
    } else {
        r == Err::<Node, ClassifyError>(ClassifyError::UnknownPrefix)
    }
}

fn prefix_matches(s: &[u8], p: &[u8]) -> (r: bool)
    ensures
        r <==> has_prefix(s@, p@),
{
    if s.len() < p.len() {
        return false;
    }
    let mut i: usize = 0;
    while i < p.len()
        invariant
            p@.len() <= s@.len(),
            i <= p@.len(),
            forall|k: int| 0 <= k < i ==> s@[k] == p@[k],
        decreases p@.len() - i,
    {
        if s[i] != p[i] {
            assert(s@.subrange(0, p@.len() as int)[i as int] != p@[i as int]);
            return false;
        }
        i += 1;
    }
    assert(s@.subrange(0, p@.len() as int) =~= p@);
    true
}

/// Classifies one record against the thresholds: unmapped, then mapping
/// quality below the minimum, then too many mismatches, then too many
/// alignments; otherwise the reference name's `bait_` or `prey_` prefix
/// gives the role, and any other prefix is an error.
pub fn classify(rec: &SamRec, th: Thresholds) -> (r: Result<Node, ClassifyError>)
    ensures
        classified(r, rec.rname@, rec.mapq, rec.n_mismatch, rec.n_aligned, th),
{
    if is_star(rec.rname.as_slice()) {
        return Ok(Node::NotValid(NotValidType::NotFound));
    }
    if rec.mapq < th.min_mapq {
        return Ok(Node::NotValid(NotValidType::MapqTooSmall(rec.mapq)));
    }
    if rec.n_mismatch > th.max_mismatch {
        return Ok(Node::NotValid(NotValidType::TooManyMisMatch(rec.n_mismatch)));
    }
    if rec.n_aligned > th.max_aligned {
        return Ok(Node::NotValid(NotValidType::TooManyAligned(rec.n_aligned)));
    }
    let bait: Vec<u8> = vec![98u8, 97u8, 105u8, 116u8, 95u8];
    let prey: Vec<u8> = vec![112u8, 114u8, 101u8, 121u8, 95u8];
    assert(bait@ =~= bait_prefix());
    assert(prey@ =~= prey_prefix());
    if prefix_matches(rec.rname.as_slice(), bait.as_slice()) {
        Ok(Node::Bait(copy_range(rec.rname.as_slice(), 0, rec.rname.len())))
    } else if prefix_matches(rec.rname.as_slice(), prey.as_slice()) {
        Ok(Node::Prey(copy_range(rec.rname.as_slice(), 0, rec.rname.len())))
    } else {
        Err(ClassifyError::UnknownPrefix)
    }
}

/// Ways loading an alignment line can fail.
#[derive(Debug, Clone, Copy, PartialEq, Eq, Structural)]
pub enum LoadError {
    Parse(SamError),
    Classify(ClassifyError),
}

/// A header line of an alignment file: it begins with `@`.
pub open spec fn is_header(line: Seq<u8>) -> bool {
    line.len() > 0 && line[0] == 64
}

/// The classification of each read id seen, computed once per record.
pub struct NodeTable {
    nodes: HashMap<u64, Node>,
}

impl NodeTable {
    pub closed spec fn view(&self) -> Map<u64, Node> {
        self.nodes@
    }

    pub fn new() -> (r: Self)
        ensures
            r.view() == Map::<u64, Node>::empty(),
    {
        NodeTable { nodes: HashMap::new() }
    }

    /// Classifies `rec` and stores the result under its read id, replacing
    /// an earlier one.
    pub fn insert_record(&mut self, rec: &SamRec, th: Thresholds) -> (r: Result<(), ClassifyError>)
        ensures
            r is Ok ==> exists|n: Node|
                classified(Ok::<Node, ClassifyError>(n), rec.rname@, rec.mapq, rec.n_mismatch, rec.n_aligned, th)
                    && final(self).view() == old(self).view().insert(rec.qname, n),
            r is Err ==> classified(
                Err::<Node, ClassifyError>(r->Err_0),
                rec.rname@,
                rec.mapq,
                rec.n_mismatch,
                rec.n_aligned,
                th,
            ) && final(self).view() == old(self).view(),
    {
        let c = classify(rec, th);
        match c {
            Ok(n) => {
                let ghost gn = n;
                assert(classified(Ok::<Node, ClassifyError>(gn), rec.rname@, rec.mapq, rec.n_mismatch, rec.n_aligned, th));
                self.nodes.insert(rec.qname, n);
                assert(self.view() == old(self).view().insert(rec.qname, gn));
                Ok(())
            },
            Err(e) => Err(e),
        }
    }

    /// Reads an alignment line and stores its read's classification.
    /// Header lines, which begin with `@`, are skipped.
    pub fn load_line(&mut self, line: &[u8], th: Thresholds) -> (r: Result<(), LoadError>)
        ensures
            is_header(line@) ==> r is Ok && final(self).view() == old(self).view(),
            !is_header(line@) ==> match sam_spec(line@) {
                Err(e) => r == Err::<(), LoadError>(LoadError::Parse(e)) && final(self).view()
                    == old(self).view(),
                Ok((q, name, mapq, nm, na)) => match r {
                    Ok(()) => exists|n: Node|
                        classified(Ok::<Node, ClassifyError>(n), name, mapq, nm, na, th)
                            && final(self).view() == old(self).view().insert(q, n),
                    Err(LoadError::Classify(c)) => classified(
                        Err::<Node, ClassifyError>(c),
                        name,
                        mapq,
                        nm,
                        na,
                        th,
                    ) && final(self).view() == old(self).view(),
                    Err(LoadError::Parse(_)) => false,
                },
            },
    {
        if line.len() > 0 && line[0] == 64u8 {
            return Ok(());
        }
        let rec = match parse_bwa_sam_rec(line) {
            Ok(rec) => rec,
            Err(e) => {
                return Err(LoadError::Parse(e));
            },
        };
        match self.insert_record(&rec, th) {
            Ok(()) => Ok(()),
            Err(e) => Err(LoadError::Classify(e)),
        }
    }

    /// The stored classification of a read id.
    pub fn get(&self, id: u64) -> (r: Option<&Node>)
        ensures
            self.view().contains_key(id) ==> r == Some(&self.view()[id]),
            !self.view().contains_key(id) ==> r is None,
    {
        self.nodes.get(&id)
    }
}

/// `Bait:`
pub open spec fn bait_label() -> Seq<u8> {
    seq![66u8, 97u8, 105u8, 116u8, 58u8]
}

/// `Prey:`
pub open spec fn prey_label() -> Seq<u8> {
    seq![80u8, 114u8, 101u8, 121u8, 58u8]
}

/// `NotFound`
pub open spec fn not_found_label() -> Seq<u8> {
    seq![78u8, 111u8, 116u8, 70u8, 111u8, 117u8, 110u8, 100u8]
}

/// `MAPQTooSmall:`
pub open spec fn mapq_label() -> Seq<u8> {
    seq![77u8, 65u8, 80u8, 81u8, 84u8, 111u8, 111u8, 83u8, 109u8, 97u8, 108u8, 108u8, 58u8]
}

/// `TooManyMisMatch:`
pub open spec fn mismatch_label() -> Seq<u8> {
    seq![84u8, 111u8, 111u8, 77u8, 97u8, 110u8, 121u8, 77u8, 105u8, 115u8, 77u8, 97u8, 116u8, 99u8, 104u8, 58u8]
}

/// `TooManyAligned:`
pub open spec fn aligned_label() -> Seq<u8> {
    seq![84u8, 111u8, 111u8, 77u8, 97u8, 110u8, 121u8, 65u8, 108u8, 105u8, 103u8, 110u8, 101u8, 100u8, 58u8]
}

/// Decimal digits of `n`, most significant first.
pub open spec fn decimal_digits(n: nat) -> Seq<u8>
    decreases n,
{
    if n < 10 {
        seq![(48 + n) as u8]
    } else {
        decimal_digits(n / 10).push((48 + n % 10) as u8)
    }
}

/// Text form of a node, as written to the detail file.
pub open spec fn node_label(n: Node) -> Seq<u8> {
    match n {
        Node::Bait(name) => bait_label() + name@,
        Node::Prey(name) => prey_label() + name@,
        Node::NotValid(NotValidType::NotFound) => not_found_label(),
        Node::NotValid(NotValidType::MapqTooSmall(s)) => mapq_label() + decimal_digits(s as nat),
        Node::NotValid(NotValidType::TooManyMisMatch(s)) => mismatch_label() + decimal_digits(
            s as nat,
        ),
        Node::NotValid(NotValidType::TooManyAligned(s)) => aligned_label() + decimal_digits(
            s as nat,
        ),
    }
}

fn push_decimal(out: &mut Vec<u8>, n: u64)
    ensures
        final(out)@ == old(out)@ + decimal_digits(n as nat),
    decreases n,
{
    if n >= 10 {
        push_decimal(out, n / 10);
    }
    let d = (n % 10) as u8;
    out.push(48u8 + d);
    assert(final(out)@ =~= old(out)@ + decimal_digits(n as nat));
}

impl Node {
    /// Text form of the node: `Bait:<name>`, `Prey:<name>`, `NotFound`,
    /// or the reason with its value, such as `MAPQTooSmall:3`.
    pub fn label(&self) -> (r: Vec<u8>)
        ensures
            r@ == node_label(*self),
    {
        let mut out: Vec<u8> = Vec::new();
        match self {
            Node::Bait(name) => {
                let head: Vec<u8> = vec![66u8, 97u8, 105u8, 116u8, 58u8];
                assert(head@ =~= bait_label());
                append(&mut out, head.as_slice());
                append(&mut out, name.as_slice());
            },
            Node::Prey(name) => {
                let head: Vec<u8> = vec![80u8, 114u8, 101u8, 121u8, 58u8];
                assert(head@ =~= prey_label());
                append(&mut out, head.as_slice());
                append(&mut out, name.as_slice());
            },
            Node::NotValid(NotValidType::NotFound) => {
                let head: Vec<u8> = vec![78u8, 111u8, 116u8, 70u8, 111u8, 117u8, 110u8, 100u8];
                assert(head@ =~= not_found_label());
                append(&mut out, head.as_slice());
            },
            Node::NotValid(NotValidType::MapqTooSmall(s)) => {
                let head: Vec<u8> = vec![77u8, 65u8, 80u8, 81u8, 84u8, 111u8, 111u8, 83u8, 109u8, 97u8, 108u8, 108u8, 58u8];
                assert(head@ =~= mapq_label());
                append(&mut out, head.as_slice());
                push_decimal(&mut out, *s as u64);
            },
            Node::NotValid(NotValidType::TooManyMisMatch(s)) => {
                let head: Vec<u8> = vec![84u8, 111u8, 111u8, 77u8, 97u8, 110u8, 121u8, 77u8, 105u8, 115u8, 77u8, 97u8, 116u8, 99u8, 104u8, 58u8];
                assert(head@ =~= mismatch_label());
                append(&mut out, head.as_slice());
                push_decimal(&mut out, *s);
            },
            Node::NotValid(NotValidType::TooManyAligned(s)) => {
                let head: Vec<u8> = vec![84u8, 111u8, 111u8, 77u8, 97u8, 110u8, 121u8, 65u8, 108u8, 105u8, 103u8, 110u8, 101u8, 100u8, 58u8];
                assert(head@ =~= aligned_label());
                append(&mut out, head.as_slice());
                push_decimal(&mut out, *s);
            },
        }
        assert(out@ =~= node_label(*self));
        out
    }
}

} // verus!
