//! Aggregating classified tag pairs into bait–prey edge counts and pair
//! category statistics.
use crate::sam::{Node, NodeTable, NotValidType};
use crate::tally::{lemma_same_elements, sort_triples, triple_le};
use crate::text::{copy_range, bytes_eq, decimal_value, is_decimal, parse_u64, split_fields, split_spec, views};
use vstd::prelude::*;

verus! {

/// Role of one side of a pair.
#[derive(Debug, Clone, Copy, PartialEq, Eq, Structural)]
pub enum Role {
    Bait,
    Prey,
    Invalid,
}

pub open spec fn role_of(n: Node) -> Role {
    match n {
        Node::Bait(_) => Role::Bait,
        Node::Prey(_) => Role::Prey,
        Node::NotValid(_) => Role::Invalid,
    }
}

/// One counter per pair category. Pairs whose two sides have the same
/// bait or prey role are counted apart, in `n_same_role`.
#[derive(Debug, Clone, Copy, PartialEq, Eq, Structural)]
pub struct PairStats {
    pub n_valid_pair: u64,
    pub n_bait_nv_pair: u64,
    pub n_prey_nv_pair: u64,
    pub n_nv_pair: u64,
    pub n_same_role: u64,
}

impl PairStats {
    pub open spec fn total_spec(&self) -> int {
        self.n_valid_pair + self.n_bait_nv_pair + self.n_prey_nv_pair + self.n_nv_pair
            + self.n_same_role
    }

    /// Pairs counted in the four bait/prey/not-valid categories.
    pub open spec fn categorized_total(&self) -> int {
        self.n_valid_pair + self.n_bait_nv_pair + self.n_prey_nv_pair + self.n_nv_pair
    }

    pub open spec fn zero() -> PairStats {
        PairStats {
            n_valid_pair: 0,
            n_bait_nv_pair: 0,
            n_prey_nv_pair: 0,
            n_nv_pair: 0,
            n_same_role: 0,
        }
    }
}

/// One side is a bait and the other a prey.
pub open spec fn is_bait_prey(a: Role, b: Role) -> bool {
    (a == Role::Bait && b == Role::Prey) || (a == Role::Prey && b == Role::Bait)
}

/// The statistics after one more pair whose sides have roles `a` and `b`.
pub open spec fn categorized(s: PairStats, a: Role, b: Role) -> PairStats {
    if (a == Role::Bait && b == Role::Prey) || (a == Role::Prey && b == Role::Bait) {
        PairStats { n_valid_pair: (s.n_valid_pair + 1) as u64, ..s }
    } else if (a == Role::Prey && b == Role::Invalid) || (a == Role::Invalid && b == Role::Prey) {
        PairStats { n_prey_nv_pair: (s.n_prey_nv_pair + 1) as u64, ..s }
    } else if (a == Role::Bait && b == Role::Invalid) || (a == Role::Invalid && b == Role::Bait) {
        PairStats { n_bait_nv_pair: (s.n_bait_nv_pair + 1) as u64, ..s }
    } else if a == Role::Invalid && b == Role::Invalid {
        PairStats { n_nv_pair: (s.n_nv_pair + 1) as u64, ..s }
    } else {
        PairStats { n_same_role: (s.n_same_role + 1) as u64, ..s }
    }
}

/// The statistics after a run of pairs, from zero.
pub open spec fn categorized_all(ps: Seq<(Role, Role)>) -> PairStats
    decreases ps.len(),
{
    if ps.len() == 0 {
        PairStats::zero()
    } else {
        categorized(categorized_all(ps.drop_last()), ps.last().0, ps.last().1)
    }
}

/// When no pair joins two baits or two preys, each pair lands in exactly
/// one of the four categories: valid, bait–invalid, prey–invalid and
/// invalid–invalid pairs add up to the number of pairs.
pub proof fn lemma_categories_exhaustive(ps: Seq<(Role, Role)>)
    requires
        ps.len() < u64::MAX,
        forall|i: int|
            0 <= i < ps.len() ==> !((#[trigger] ps[i]).0 == Role::Bait && ps[i].1 == Role::Bait)
                && !(ps[i].0 == Role::Prey && ps[i].1 == Role::Prey),
    ensures
        categorized_all(ps).categorized_total() == ps.len(),
        categorized_all(ps).n_same_role == 0,
    decreases ps.len(),
{
    if ps.len() > 0 {
        let t = ps.drop_last();
        assert forall|i: int| 0 <= i < t.len() implies !((#[trigger] t[i]).0 == Role::Bait && t[i].1
            == Role::Bait) && !(t[i].0 == Role::Prey && t[i].1 == Role::Prey) by {
            assert(t[i] == ps[i]);
        }
        lemma_categories_exhaustive(t);
        assert(ps.last() == ps[ps.len() - 1]);
    }
}

/// Aggregated count of one bait–prey pair of reference names.
#[derive(Debug, Clone, PartialEq, Eq)]
pub struct Edge {
    pub bait: Vec<u8>,
    pub prey: Vec<u8>,
    pub count: u64,
}

pub open spec fn edge_view(e: Edge) -> (Seq<u8>, Seq<u8>, u64) {
    (e.bait@, e.prey@, e.count)
}

/// Position of the entry for `(b, p)`, or -1.
pub open spec fn edge_index(s: Seq<(Seq<u8>, Seq<u8>, u64)>, b: Seq<u8>, p: Seq<u8>) -> int
    decreases s.len(),
{
    if s.len() == 0 {
        -1
    } else if s.last().0 == b && s.last().1 == p {
        s.len() - 1
    } else {
        edge_index(s.drop_last(), b, p)
    }
}

/// The table after adding `w` to the entry for `(b, p)`, made if absent.
pub open spec fn edge_added(s: Seq<(Seq<u8>, Seq<u8>, u64)>, b: Seq<u8>, p: Seq<u8>, w: u64) -> Seq<
    (Seq<u8>, Seq<u8>, u64),
> {
    let i = edge_index(s, b, p);
    if i >= 0 {
        s.update(i, (b, p, (s[i].2 + w) as u64))
    } else {
        s.push((b, p, w))
    }
}

proof fn lemma_edge_index_range(s: Seq<(Seq<u8>, Seq<u8>, u64)>, b: Seq<u8>, p: Seq<u8>)
    ensures
        -1 <= edge_index(s, b, p) < s.len(),
        edge_index(s, b, p) >= 0 ==> s[edge_index(s, b, p)].0 == b && s[edge_index(s, b, p)].1 == p,
        edge_index(s, b, p) == -1 ==> forall|j: int|
            0 <= j < s.len() ==> !((#[trigger] s[j]).0 == b && s[j].1 == p),
    decreases s.len(),
{
    if s.len() > 0 {
        let t = s.drop_last();
        lemma_edge_index_range(t, b, p);
        assert forall|j: int| 0 <= j < t.len() implies #[trigger] t[j] == s[j] by {}
        assert(s.last() == s[s.len() - 1]);
        if edge_index(s, b, p) == -1 {
            assert forall|j: int| 0 <= j < s.len() implies !((#[trigger] s[j]).0 == b && s[j].1
                == p) by {
                if j < t.len() {
                    assert(t[j] == s[j]);
                }
            }
        }
    }
}

/// Mapping two sequences with the same elements gives sequences with the
/// same elements.
proof fn lemma_map_same_elements<A, B>(a: Seq<A>, b: Seq<A>, f: spec_fn(A) -> B)
    requires
        a.to_multiset() == b.to_multiset(),
    ensures
        a.map_values(f).to_multiset() == b.map_values(f).to_multiset(),
    decreases a.len(),
{
    broadcast use vstd::seq_lib::group_to_multiset_ensures;

    if a.len() == 0 {
        assert(a.to_multiset().len() == 0);
        assert(b.to_multiset().len() == b.len());
        assert(b.map_values(f) =~= Seq::<B>::empty());
        assert(a.map_values(f) =~= Seq::<B>::empty());
    } else {
        let x = a.last();
        assert(a.contains(x)) by {
            assert(a[a.len() - 1] == x);
        }
        assert(b.to_multiset().count(x) > 0);
        assert(b.contains(x));
        let i = choose|i: int| 0 <= i < b.len() && b[i] == x;
        let rest = b.remove(i);
        assert(rest.insert(i, x) =~= b);
        assert(a.drop_last().push(x) =~= a);
        assert(a.drop_last().to_multiset() =~= a.to_multiset().remove(x)) by {
            assert(a.drop_last().push(x).to_multiset() =~= a.drop_last().to_multiset().insert(x));
        }
        lemma_map_same_elements(a.drop_last(), rest, f);
        assert(a.map_values(f) =~= a.drop_last().map_values(f).push(f(x)));
        assert(b.map_values(f) =~= rest.map_values(f).insert(i, f(x)));
        vstd::seq_lib::to_multiset_insert(rest.map_values(f), i, f(x));
    }
}

/// Bait–prey edge table and pair statistics.
pub struct EdgeTable {
    stats: PairStats,
    edges: Vec<Edge>,
    weight: u64,
}

impl EdgeTable {
    pub closed spec fn stats_view(&self) -> PairStats {
        self.stats
    }

    /// The entries, in the order the pairs were first seen.
    pub closed spec fn edges_view(&self) -> Seq<(Seq<u8>, Seq<u8>, u64)> {
        self.edges@.map_values(|e: Edge| edge_view(e))
    }

    /// Sum of the counts added to the table so far.
    pub closed spec fn weight_view(&self) -> u64 {
        self.weight
    }

    pub closed spec fn wf(&self) -> bool {
        &&& forall|j: int|
            0 <= j < self.edges@.len() ==> (#[trigger] self.edges@[j]).count <= self.weight
        &&& forall|i: int, j: int|
            0 <= i < self.edges@.len() && 0 <= j < self.edges@.len() && i != j ==> !(
            #[trigger] self.edges@[i].bait@ == #[trigger] self.edges@[j].bait@ && self.edges@[i].prey@
                == self.edges@[j].prey@)
    }

    pub fn new() -> (r: Self)
        ensures
            r.wf(),
            r.stats_view() == PairStats::zero(),
            r.edges_view() == Seq::<(Seq<u8>, Seq<u8>, u64)>::empty(),
            r.weight_view() == 0,
    {
        let r = EdgeTable {
            stats: PairStats {
                n_valid_pair: 0,
                n_bait_nv_pair: 0,
                n_prey_nv_pair: 0,
                n_nv_pair: 0,
                n_same_role: 0,
            },
            edges: Vec::new(),
            weight: 0,
        };
        assert(r.edges_view() =~= Seq::<(Seq<u8>, Seq<u8>, u64)>::empty());
        r
    }

    pub fn stats(&self) -> (r: PairStats)
        ensures
            r == self.stats_view(),
    {
        self.stats
    }

    pub fn weight(&self) -> (r: u64)
        ensures
            r == self.weight_view(),
    {
        self.weight
    }

    fn find(&self, b: &[u8], p: &[u8]) -> (r: Option<usize>)
        ensures
            edge_index(self.edges_view(), b@, p@) >= 0 ==> r == Some(
                edge_index(self.edges_view(), b@, p@) as usize,
            ),
            edge_index(self.edges_view(), b@, p@) < 0 ==> r is None,
    {
        let ghost v = self.edges_view();
        let mut j: usize = self.edges.len();
        assert(v.subrange(0, j as int) =~= v);
        while j > 0
            invariant
                j <= self.edges@.len(),
                v == self.edges_view(),
                edge_index(v, b@, p@) == edge_index(v.subrange(0, j as int), b@, p@),
            decreases j,
        {
            let ghost pre = v.subrange(0, j as int);
            assert(pre.drop_last() =~= v.subrange(0, j - 1));
            let e = &self.edges[j - 1];
            assert(pre.last() == edge_view(*e));
            if bytes_eq(e.bait.as_slice(), b) && bytes_eq(e.prey.as_slice(), p) {
                return Some(j - 1);
            }
            j -= 1;
        }
        None
    }

    fn add_edge(&mut self, b: &[u8], p: &[u8], w: u64)
        requires
            old(self).wf(),
            old(self).weight + w <= u64::MAX,
        ensures
            final(self).wf(),
            final(self).stats == old(self).stats,
            final(self).weight == old(self).weight + w,
            final(self).edges_view() == edge_added(old(self).edges_view(), b@, p@, w),
    {
        proof {
            lemma_edge_index_range(self.edges_view(), b@, p@);
        }
        let ghost v = self.edges_view();
        let ghost old_edges = self.edges@;
        assert(v.len() == old_edges.len());
        let n_edges = self.edges.len();
        assert(edge_index(v, b@, p@) < n_edges);
        let found = self.find(b, p);
        assert(edge_index(v, b@, p@) >= 0 ==> found == Some(edge_index(v, b@, p@) as usize));
        assert(edge_index(v, b@, p@) < 0 ==> found is None);
        match found {
            Some(i) => {
                let c = self.edges[i].count;
                assert(self.edges@[i as int].count <= self.weight);
                assert(v[i as int] == edge_view(old_edges[i as int]));
                let e = Edge {
                    bait: copy_range(b, 0, b.len()),
                    prey: copy_range(p, 0, p.len()),
                    count: c + w,
                };
                let ghost ge = e;
                assert(edge_index(v, b@, p@) >= 0);
                assert(edge_index(v, b@, p@) == i as int);
                assert(v[i as int].0 == b@ && v[i as int].1 == p@);
                assert(ge.bait@ == b@ && ge.prey@ == p@ && ge.count == c + w);
                assert(old_edges[i as int].bait@ == b@ && old_edges[i as int].prey@ == p@);
                self.edges.set(i, e);
                self.weight = self.weight + w;
                assert(self.edges@ == old_edges.update(i as int, ge));
                assert forall|j: int| 0 <= j < v.len() implies #[trigger] self.edges_view()[j]
                    == edge_added(v, b@, p@, w)[j] by {
                    if j != i {
                        assert(self.edges@[j] == old_edges[j]);
                    } else {
                        assert(self.edges@[j] == ge);
                    }
                }
                assert(self.edges_view() =~= edge_added(v, b@, p@, w));
                assert forall|x: int, y: int|
                    0 <= x < self.edges@.len() && 0 <= y < self.edges@.len() && x != y implies !(
                    #[trigger] self.edges@[x].bait@ == #[trigger] self.edges@[y].bait@
                        && self.edges@[x].prey@ == self.edges@[y].prey@) by {
                    if x == i {
                        assert(self.edges@[x] == ge);
                    } else {
                        assert(self.edges@[x] == old_edges[x]);
                    }
                    if y == i {
                        assert(self.edges@[y] == ge);
                    } else {
                        assert(self.edges@[y] == old_edges[y]);
                    }
                }
            },
            None => {
                let e = Edge {
                    bait: copy_range(b, 0, b.len()),
                    prey: copy_range(p, 0, p.len()),
                    count: w,
                };
                self.edges.push(e);
                self.weight = self.weight + w;
                assert(self.edges@ == old_edges.push(e));
                assert(self.edges_view() =~= edge_added(v, b@, p@, w));
                assert forall|x: int, y: int|
                    0 <= x < self.edges@.len() && 0 <= y < self.edges@.len() && x != y implies !(
                    #[trigger] self.edges@[x].bait@ == #[trigger] self.edges@[y].bait@
                        && self.edges@[x].prey@ == self.edges@[y].prey@) by {
                    let n = old_edges.len() as int;
                    if x == n {
                        assert(v[y] == edge_view(old_edges[y]));
                    } else if y == n {
                        assert(v[x] == edge_view(old_edges[x]));
                    } else {
                        assert(self.edges@[x] == old_edges[x] && self.edges@[y] == old_edges[y]);
                    }
                }
            },
        }
    }

    /// Counts one pair of classified reads seen `cnt` times: the category
    /// counter of the pair goes up by one, and a bait–prey pair, in either
    /// order, adds `cnt` to its edge, keyed bait first.
    pub fn count(&mut self, node1: &Node, node2: &Node, cnt: u64)
        requires
            old(self).wf(),
            is_bait_prey(role_of(*node1), role_of(*node2)) ==> old(self).weight_view() + cnt
                <= u64::MAX,
            old(self).stats_view().total_spec() < u64::MAX,
        ensures
            final(self).wf(),
            final(self).stats_view() == categorized(
                old(self).stats_view(),
                role_of(*node1),
                role_of(*node2),
            ),
            final(self).stats_view().total_spec() == old(self).stats_view().total_spec() + 1,
            match (*node1, *node2) {
                (Node::Bait(b), Node::Prey(p)) | (Node::Prey(p), Node::Bait(b)) => {
                    &&& final(self).edges_view() == edge_added(old(self).edges_view(), b@, p@, cnt)
                    &&& final(self).weight_view() == old(self).weight_view() + cnt
                },
                _ => {
                    &&& final(self).edges_view() == old(self).edges_view()
                    &&& final(self).weight_view() == old(self).weight_view()
                },
            },
    {
        match (node1, node2) {
            (Node::Bait(b), Node::Prey(p)) | (Node::Prey(p), Node::Bait(b)) => {
                self.add_edge(b.as_slice(), p.as_slice(), cnt);
                self.stats.n_valid_pair = self.stats.n_valid_pair + 1;
            },
            (Node::Prey(_), Node::NotValid(_)) | (Node::NotValid(_), Node::Prey(_)) => {
                self.stats.n_prey_nv_pair = self.stats.n_prey_nv_pair + 1;
            },
            (Node::Bait(_), Node::NotValid(_)) | (Node::NotValid(_), Node::Bait(_)) => {
                self.stats.n_bait_nv_pair = self.stats.n_bait_nv_pair + 1;
            },
            (Node::NotValid(_), Node::NotValid(_)) => {
                self.stats.n_nv_pair = self.stats.n_nv_pair + 1;
            },
            _ => {
                self.stats.n_same_role = self.stats.n_same_role + 1;
            },
        }
    }

    /// Looks up both reads of a counted tag pair and counts the pair; a
    /// read without a record counts as not valid (`NotFound`).
    pub fn count_ids(&mut self, nodes: &NodeTable, id1: u64, id2: u64, cnt: u64)
        requires
            old(self).wf(),
            is_bait_prey(node_role(nodes.view(), id1), node_role(nodes.view(), id2)) ==> old(
                self,
            ).weight_view() + cnt <= u64::MAX,
            old(self).stats_view().total_spec() < u64::MAX,
        ensures
            final(self).wf(),
            final(self).stats_view() == categorized(
                old(self).stats_view(),
                node_role(nodes.view(), id1),
                node_role(nodes.view(), id2),
            ),
            (node_role(nodes.view(), id1) == Role::Bait && node_role(nodes.view(), id2) == Role::Prey)
                ==> final(self).edges_view() == edge_added(
                old(self).edges_view(),
                node_name(nodes.view(), id1),
                node_name(nodes.view(), id2),
                cnt,
            ),
            (node_role(nodes.view(), id1) == Role::Prey && node_role(nodes.view(), id2) == Role::Bait)
                ==> final(self).edges_view() == edge_added(
                old(self).edges_view(),
                node_name(nodes.view(), id2),
                node_name(nodes.view(), id1),
                cnt,
            ),
            !((node_role(nodes.view(), id1) == Role::Bait && node_role(nodes.view(), id2)
                == Role::Prey) || (node_role(nodes.view(), id1) == Role::Prey && node_role(
                nodes.view(),
                id2,
            ) == Role::Bait)) ==> final(self).edges_view() == old(self).edges_view(),
    {
        let missing = Node::NotValid(NotValidType::NotFound);
        let n1 = match nodes.get(id1) {
            Some(n) => n,
            None => &missing,
        };
        let n2 = match nodes.get(id2) {
            Some(n) => n,
            None => &missing,
        };
        self.count(n1, n2, cnt);
    }
}

/// Role of a read id: not valid when it has no record.
pub open spec fn node_role(m: Map<u64, Node>, id: u64) -> Role {
    if m.contains_key(id) {
        role_of(m[id])
    } else {
        Role::Invalid
    }
}

/// A decimal field that fits in a `u64`.
pub open spec fn is_u64_field(f: Seq<u8>) -> bool {
    is_decimal(f) && decimal_value(f) <= u64::MAX
}

/// Reads a `id1<TAB>id2<TAB>count` line of the pair-count file; later
/// fields are ignored. `None` unless the first three fields are decimal
/// numbers that fit in a `u64`.
pub fn parse_count_line(line: &[u8]) -> (r: Option<(u64, u64, u64)>)
    ensures
        ({
            let fs = split_spec(line@, 9);
            r is Some <==> fs.len() >= 3 && is_u64_field(fs[0]) && is_u64_field(fs[1])
                && is_u64_field(fs[2])
        }),
        r is Some ==> ({
            let fs = split_spec(line@, 9);
            r->0 == (
                decimal_value(fs[0]) as u64,
                decimal_value(fs[1]) as u64,
                decimal_value(fs[2]) as u64,
            )
        }),
{
    let fs = split_fields(line, 9u8);
    let ghost gfs = views(fs@);
    assert(gfs.len() == fs@.len());
    if fs.len() < 3 {
        return None;
    }
    assert(gfs[0] == fs@[0]@ && gfs[1] == fs@[1]@ && gfs[2] == fs@[2]@);
    let a = match parse_u64(fs[0].as_slice()) {
        Some(a) => a,
        None => {
            return None;
        },
    };
    let b = match parse_u64(fs[1].as_slice()) {
        Some(b) => b,
        None => {
            return None;
        },
    };
    let c = match parse_u64(fs[2].as_slice()) {
        Some(c) => c,
        None => {
            return None;
        },
    };
    Some((a, b, c))
}

/// Reference name of a bait or prey read; empty otherwise.
pub open spec fn node_name(m: Map<u64, Node>, id: u64) -> Seq<u8> {
    if m.contains_key(id) {
        match m[id] {
            Node::Bait(v) => v@,
            Node::Prey(v) => v@,
            Node::NotValid(_) => Seq::empty(),
        }
    } else {
        Seq::empty()
    }
}

impl EdgeTable {
    /// The edges by count, highest first; ties in no promised order.
    pub fn sorted_edges(&self) -> (r: Vec<Edge>)
        requires
            self.wf(),
        ensures
            r@.len() == self.edges_view().len(),
            forall|j: int| 0 <= j < r@.len() ==> self.edges_view().contains(edge_view(#[trigger] r@[j])),
            forall|a: int, b: int| 0 <= a < b < r@.len() ==> r@[a].count >= r@[b].count,
            forall|a: int, b: int|
                0 <= a < b < r@.len() ==> !(r@[a].bait@ == r@[b].bait@ && r@[a].prey@
                    == r@[b].prey@),
            r@.map_values(|e: Edge| edge_view(e)).to_multiset() == self.edges_view().to_multiset(),
    {
        let n = self.edges.len();
        let mut v: Vec<(u64, u64, u64)> = Vec::with_capacity(n);
        let mut i: usize = 0;
        while i < n
            invariant
                n == self.edges@.len(),
                i <= n,
                v@.len() == i,
                forall|j: int|
                    0 <= j < i ==> #[trigger] v@[j] == (
                        (u64::MAX - self.edges@[j].count) as u64,
                        j as u64,
                        0u64,
                    ),
            decreases n - i,
        {
            v.push((u64::MAX - self.edges[i].count, i as u64, 0));
            i += 1;
        }
        let ghost before = v@;
        sort_triples(&mut v);
        let ghost sorted = v@;
        assert(sorted.len() == before.len()) by {
            broadcast use vstd::seq_lib::group_to_multiset_ensures;

            assert(sorted.to_multiset().len() == before.to_multiset().len());
        }
        let mut out: Vec<Edge> = Vec::with_capacity(n);
        let ghost mut src: Seq<int> = Seq::empty();
        let mut j: usize = 0;
        while j < n
            invariant
                n == self.edges@.len(),
                v@ == sorted,
                sorted.len() == n,
                before.len() == n,
                sorted.to_multiset() == before.to_multiset(),
                forall|t: int|
                    0 <= t < n ==> #[trigger] before[t] == (
                        (u64::MAX - self.edges@[t].count) as u64,
                        t as u64,
                        0u64,
                    ),
                j <= n,
                out@.len() == j,
                src.len() == j,
                forall|t: int|
                    0 <= t < j ==> 0 <= #[trigger] src[t] < n && sorted[t] == before[src[t]]
                        && edge_view(out@[t]) == edge_view(self.edges@[src[t]]),
            decreases n - j,
        {
            let (_, idx, _) = v[j];
            proof {
                assert(sorted.contains(sorted[j as int]));
                lemma_same_elements(sorted, before, sorted[j as int]);
            }
            let ghost w = choose|w: int| 0 <= w < n && before[w] == sorted[j as int];
            assert(idx == w);
            let e = &self.edges[idx as usize];
            out.push(Edge { bait: copy_range(e.bait.as_slice(), 0, e.bait.len()), prey: copy_range(e.prey.as_slice(), 0, e.prey.len()), count: e.count });
            proof {
                src = src.push(w);
            }
            j += 1;
        }
        proof {
            assert forall|t: int| 0 <= t < out@.len() implies self.edges_view().contains(
                edge_view(#[trigger] out@[t]),
            ) by {
                let i = src[t];
                assert(self.edges_view()[i] == edge_view(self.edges@[i]));
            }
            assert forall|a: int, b: int| 0 <= a < b < out@.len() implies out@[a].count >= out@[b].count by {
                assert(triple_le(sorted[a], sorted[b]));
                assert(0 <= src[a] < n && 0 <= src[b] < n);
            }
            assert(before.no_duplicates()) by {
                assert forall|x: int, y: int| 0 <= x < y < before.len() implies before[x]
                    != before[y] by {
                    assert(before[x].1 == x as u64 && before[y].1 == y as u64);
                }
            }
            before.lemma_multiset_has_no_duplicates();
            sorted.lemma_multiset_has_no_duplicates_conv();
            let g = |t: (u64, u64, u64)| self.edges_view()[t.1 as int];
            lemma_map_same_elements(sorted, before, g);
            assert(before.map_values(g) =~= self.edges_view());
            assert(out@.map_values(|e: Edge| edge_view(e)) =~= sorted.map_values(g)) by {
                assert forall|t: int| 0 <= t < out@.len() implies edge_view(#[trigger] out@[t])
                    == g(sorted[t]) by {
                    assert(sorted[t] == before[src[t]]);
                    assert(self.edges_view()[src[t]] == edge_view(self.edges@[src[t]]));
                }
            }
            assert forall|a: int, b: int| 0 <= a < b < out@.len() implies !(out@[a].bait@
                == out@[b].bait@ && out@[a].prey@ == out@[b].prey@) by {
                assert(sorted[a] != sorted[b]);
                assert(src[a] != src[b]);
                assert(edge_view(out@[a]) == edge_view(self.edges@[src[a]]));
                assert(edge_view(out@[b]) == edge_view(self.edges@[src[b]]));
                assert(!(self.edges@[src[a]].bait@ == self.edges@[src[b]].bait@
                    && self.edges@[src[a]].prey@ == self.edges@[src[b]].prey@));
            }
        }
        out
    }
}

} // verus!
