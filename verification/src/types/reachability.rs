//! An incremental index of a transitively closed relation over nodes: adding
//! an edge links everything that reaches its source to everything its target reaches.
use std::collections::HashSet;
use vstd::prelude::*;
use vstd::set_lib::{lemma_int_range, lemma_len_subset, set_int_range};

verus! {

broadcast use vstd::std_specs::hash::group_hash_axioms;

/// The index of a node of the constraint graph.
pub type ID = usize;

/// A set of node indices that remembers the order in which they were added.
#[derive(Debug)]
struct OrderedSet {
    v: Vec<ID>,
    s: HashSet<ID>,
}

impl View for OrderedSet {
    type V = Seq<ID>;

    closed spec fn view(&self) -> Seq<ID> {
        self.v@
    }
}

impl OrderedSet {
    closed spec fn wf(&self) -> bool {
        &&& self.v@.no_duplicates()
        &&& self.s@ == self.v@.to_set()
    }

    fn new() -> (res: Self)
        ensures
            res.wf(),
            res@ == Seq::<ID>::empty(),
    {
        let res = OrderedSet { v: Vec::new(), s: HashSet::new() };
        assert(res.v@.to_set() =~= Set::<ID>::empty());
        res
    }

    /// Adds `value` at the end unless it is already present; tells whether it was added.
    fn insert(&mut self, value: ID) -> (res: bool)
        requires
            old(self).wf(),
        ensures
            final(self).wf(),
            res == !old(self)@.contains(value),
            final(self)@ == (if res {
                old(self)@.push(value)
            } else {
                old(self)@
            }),
    {
        if self.s.insert(value) {
            proof {
                assert(!self.v@.contains(value));
            }
            self.v.push(value);
            proof {
                assert(self.v@ == old(self).v@.push(value));
                old(self).v@.lemma_push_to_set_commute(value);
                assert(self.v@.to_set() =~= old(self).v@.to_set().insert(value));
                assert forall|i: int, j: int|
                    0 <= i < self.v@.len() && 0 <= j < self.v@.len() && i != j implies self.v@[i]
                    != self.v@[j] by {
                    if i == self.v@.len() - 1 {
                        assert(old(self).v@.contains(self.v@[j]));
                    } else if j == self.v@.len() - 1 {
                        assert(old(self).v@.contains(self.v@[i]));
                    }
                }
            }
            true
        } else {
            proof {
                assert(self.s@ =~= old(self).s@);
            }
            false
        }
    }

    /// The elements, in insertion order.
    fn iter(&self) -> (res: &[ID])
        ensures
            res@ == self@,
    {
        self.v.as_slice()
    }
}

/// The number of entries in all the sequences together.
pub open spec fn sum_lens(s: Seq<Seq<ID>>) -> nat
    decreases s.len(),
{
    if s.len() == 0 {
        0
    } else {
        sum_lens(s.drop_last()) + s.last().len()
    }
}

proof fn lemma_sum_lens_update(s: Seq<Seq<ID>>, i: int, t: Seq<ID>)
    requires
        0 <= i < s.len(),
    ensures
        sum_lens(s.update(i, t)) == sum_lens(s) - s[i].len() + t.len(),
    decreases s.len(),
{
    if i == s.len() - 1 {
        assert(s.update(i, t).drop_last() =~= s.drop_last());
    } else {
        lemma_sum_lens_update(s.drop_last(), i, t);
        assert(s.update(i, t).drop_last() =~= s.drop_last().update(i, t));
    }
}

proof fn lemma_sum_lens_push(s: Seq<Seq<ID>>, t: Seq<ID>)
    ensures
        sum_lens(s.push(t)) == sum_lens(s) + t.len(),
{
    assert(s.push(t).drop_last() =~= s);
}

/// A sequence without repetitions of numbers below `n` has at most `n` entries.
proof fn lemma_distinct_below_len(s: Seq<ID>, n: nat)
    requires
        s.no_duplicates(),
        forall|i: int| 0 <= i < s.len() ==> s[i] < n,
    ensures
        s.len() <= n,
{
    let t = s.map_values(|x: ID| x as int);
    assert forall|i: int, j: int| 0 <= i < t.len() && 0 <= j < t.len() && i != j implies t[i]
        != t[j] by {
        assert(s[i] != s[j]);
    }
    t.unique_seq_to_set();
    lemma_int_range(0, n as int);
    assert forall|x: int| t.to_set().contains(x) implies set_int_range(0, n as int).contains(x) by {
        let k = choose|k: int| 0 <= k < t.len() && t[k] == x;
        assert(s[k] < n);
    }
    lemma_len_subset(t.to_set(), set_int_range(0, n as int));
}

proof fn lemma_sum_lens_bound(s: Seq<Seq<ID>>, n: nat)
    requires
        forall|i: int| 0 <= i < s.len() ==> (#[trigger] s[i]).len() <= n,
    ensures
        sum_lens(s) <= s.len() * n,
    decreases s.len(),
{
    if s.len() > 0 {
        lemma_sum_lens_bound(s.drop_last(), n);
        assert(sum_lens(s) <= (s.len() - 1) * n + n);
        assert((s.len() - 1) * n + n == s.len() * n) by (nonlinear_arith);
    }
}

/// `e` is transitively closed.
pub open spec fn transitive(e: Set<(ID, ID)>) -> bool {
    forall|a: ID, b: ID, c: ID|
        #![trigger e.contains((a, b)), e.contains((b, c))]
        e.contains((a, b)) && e.contains((b, c)) ==> e.contains((a, c))
}

/// The least transitively closed relation that holds `e`, itself transitively closed,
/// and the pair `(l, r)`: what links anything that reaches `l` to anything `r` reaches.
pub open spec fn closure_with(e: Set<(ID, ID)>, l: ID, r: ID) -> Set<(ID, ID)> {
    e.union(
        Set::new(
            |p: (ID, ID)| (p.0 == l || e.contains((p.0, l))) && (p.1 == r || e.contains((r, p.1))),
        ),
    )
}

/// Adding a pair to a transitively closed relation and closing it again gives a
/// transitively closed relation.
pub proof fn lemma_closure_with_transitive(e: Set<(ID, ID)>, l: ID, r: ID)
    requires
        transitive(e),
    ensures
        transitive(closure_with(e, l, r)),
        closure_with(e, l, r).contains((l, r)),
        e.subset_of(closure_with(e, l, r)),
{
    let t = closure_with(e, l, r);
    assert forall|a: ID, b: ID, c: ID| t.contains((a, b)) && t.contains((b, c)) implies t.contains(
        (a, c),
    ) by {
        if e.contains((a, b)) && e.contains((b, c)) {
        } else if e.contains((a, b)) {
            if b != l {
                assert(e.contains((b, l)));
                assert(e.contains((a, l)));
            }
        } else if e.contains((b, c)) {
            if b != r {
                assert(e.contains((r, b)));
                assert(e.contains((r, c)));
            }
        } else {
        }
    }
}

/// The state of the linking work: the successors and the predecessors of each
/// node, the pairs still to link (the last one first), and the pairs reported.
pub type LinkState = (Seq<Seq<ID>>, Seq<Seq<ID>>, Seq<(ID, ID)>, Seq<(ID, ID)>);

/// One step of the linking work: the last pending pair is taken; where it is not
/// linked yet, it is linked at the end of both sequences, reported, and followed
/// by the pairs of each predecessor of its source with its target, then of its
/// source with each successor of its target.
pub open spec fn link_step(s: LinkState) -> LinkState {
    let down = s.0;
    let up = s.1;
    let x = s.2.last().0;
    let y = s.2.last().1;
    let rest = s.2.drop_last();
    if down[x as int].contains(y) {
        (down, up, rest, s.3)
    } else {
        let d = down.update(x as int, down[x as int].push(y));
        let u = if up[y as int].contains(x) {
            up
        } else {
            up.update(y as int, up[y as int].push(x))
        };
        (
            d,
            u,
            rest + u[x as int].map_values(|p: ID| (p, y)) + d[y as int].map_values(|q: ID| (x, q)),
            s.3.push((x, y)),
        )
    }
}

/// The state once no pair is pending, if at most `fuel` steps lead there.
pub open spec fn link_run(s: LinkState, fuel: nat) -> Option<LinkState>
    decreases fuel,
{
    if s.2.len() == 0 {
        Some(s)
    } else if fuel == 0 {
        None
    } else {
        link_run(link_step(s), (fuel - 1) as nat)
    }
}

/// The state the linking work ends in, where it ends.
pub open spec fn link_result(s: LinkState) -> LinkState {
    match link_run(s, choose|k: nat| link_run(s, k) is Some) {
        Some(t) => t,
        None => s,
    }
}

/// The linking work ends in one state only, whatever fuel lets it end.
pub proof fn lemma_link_run_unique(s: LinkState, k1: nat, k2: nat)
    requires
        link_run(s, k1) is Some,
        link_run(s, k2) is Some,
    ensures
        link_run(s, k1) == link_run(s, k2),
    decreases k1,
{
    if s.2.len() > 0 {
        lemma_link_run_unique(link_step(s), (k1 - 1) as nat, (k2 - 1) as nat);
    }
}

/// Where the linking work ends in `t`, `t` is its result.
pub proof fn lemma_link_result(s: LinkState, k: nat, t: LinkState)
    requires
        link_run(s, k) == Some(t),
    ensures
        link_result(s) == t,
{
    let c = choose|c: nat| link_run(s, c) is Some;
    lemma_link_run_unique(s, k, c);
}

/// After one more step of the linking work, the run from the start and the run
/// from the current state still agree.
proof fn lemma_link_run_step(init: LinkState, cur: LinkState, next: LinkState, k: nat)
    requires
        forall|j: nat| #[trigger] link_run(cur, j) == link_run(init, k + j),
        cur.2.len() > 0,
        link_step(cur) == next,
    ensures
        forall|j: nat| #[trigger] link_run(next, j) == link_run(init, (k + 1) + j),
{
    assert forall|j: nat| #[trigger] link_run(next, j) == link_run(init, (k + 1) + j) by {
        assert(link_run(cur, j + 1) == link_run(init, k + (j + 1)));
        assert(link_run(cur, (j + 1) as nat) == link_run(link_step(cur), j));
    }
}

/// The reachability relation between the nodes of the constraint graph,
/// kept transitively closed, with the successors and the predecessors of
/// each node in the order in which they became linked.
#[derive(Debug)]
pub struct Reachability {
    upsets: Vec<OrderedSet>,
    downsets: Vec<OrderedSet>,
}

impl Reachability {
    /// The number of nodes.
    pub closed spec fn len(&self) -> nat {
        self.downsets@.len()
    }

    /// The successors of each node, in the order in which they were linked.
    pub closed spec fn down_seqs(&self) -> Seq<Seq<ID>> {
        self.downsets@.map_values(|o: OrderedSet| o@)
    }

    /// The predecessors of each node, in the order in which they were linked.
    pub closed spec fn up_seqs(&self) -> Seq<Seq<ID>> {
        self.upsets@.map_values(|o: OrderedSet| o@)
    }

    /// The successors of `id`, in the order in which they were linked.
    pub open spec fn succ_seq(&self, id: ID) -> Seq<ID> {
        self.down_seqs()[id as int]
    }

    /// The predecessors of `id`, in the order in which they were linked.
    pub open spec fn pred_seq(&self, id: ID) -> Seq<ID> {
        self.up_seqs()[id as int]
    }

    /// The relation: `(a, b)` where `b` is reachable from `a`.
    pub open spec fn edges(&self) -> Set<(ID, ID)> {
        Set::new(|p: (ID, ID)| p.0 < self.len() && self.succ_seq(p.0).contains(p.1))
    }

    /// The number of pairs in the relation.
    pub open spec fn edge_count(&self) -> nat {
        sum_lens(self.down_seqs())
    }

    /// Both indexes describe the same relation over the nodes, without repetitions.
    closed spec fn wf_struct(&self) -> bool {
        &&& self.upsets@.len() == self.downsets@.len()
        &&& forall|i: int| 0 <= i < self.downsets@.len() ==> (#[trigger] self.downsets@[i]).wf()
        &&& forall|i: int| 0 <= i < self.upsets@.len() ==> (#[trigger] self.upsets@[i]).wf()
        &&& forall|a: int, k: int|
            0 <= a < self.downsets@.len() && 0 <= k < self.downsets@[a]@.len() ==> #[trigger] self.downsets@[a]@[k]
                < self.downsets@.len()
        &&& forall|b: int, k: int|
            0 <= b < self.upsets@.len() && 0 <= k < self.upsets@[b]@.len() ==> #[trigger] self.upsets@[b]@[k]
                < self.upsets@.len()
        &&& forall|a: ID, b: ID|
            a < self.downsets@.len() && b < self.downsets@.len() ==> (
            #[trigger] self.downsets@[a as int]@.contains(b) <==> #[trigger] self.upsets@[b as int]@.contains(a))
    }

    /// The invariant of the index: consistent, and transitively closed.
    pub closed spec fn wf(&self) -> bool {
        &&& self.wf_struct()
        &&& transitive(self.edges())
    }

    /// What every well-formed index satisfies: the successor and predecessor
    /// sequences list, without repetition, exactly the linked nodes, and the
    /// relation has at most one pair per ordered pair of nodes.
    pub proof fn lemma_wf(&self)
        requires
            self.wf(),
        ensures
            transitive(self.edges()),
            self.down_seqs().len() == self.len(),
            self.up_seqs().len() == self.len(),
            forall|a: ID| a < self.len() ==> (#[trigger] self.succ_seq(a)).no_duplicates(),
            forall|a: ID| a < self.len() ==> (#[trigger] self.pred_seq(a)).no_duplicates(),
            forall|a: ID, b: ID|
                a < self.len() ==> (#[trigger] self.succ_seq(a).contains(b) <==> self.edges().contains((a, b))),
            forall|a: ID, b: ID|
                b < self.len() ==> (#[trigger] self.pred_seq(b).contains(a) <==> self.edges().contains((a, b))),
            forall|a: ID, b: ID| #[trigger] self.edges().contains((a, b)) ==> a < self.len() && b < self.len(),
            self.edge_count() <= self.len() * self.len(),
    {
        self.lemma_struct();
    }

    proof fn lemma_struct(&self)
        requires
            self.wf_struct(),
        ensures
            self.down_seqs().len() == self.len(),
            self.up_seqs().len() == self.len(),
            forall|a: ID| a < self.len() ==> (#[trigger] self.succ_seq(a)).no_duplicates(),
            forall|a: ID| a < self.len() ==> (#[trigger] self.pred_seq(a)).no_duplicates(),
            forall|a: ID, b: ID|
                a < self.len() ==> (#[trigger] self.succ_seq(a).contains(b) <==> self.edges().contains((a, b))),
            forall|a: ID, b: ID|
                b < self.len() ==> (#[trigger] self.pred_seq(b).contains(a) <==> self.edges().contains((a, b))),
            forall|a: ID, b: ID| #[trigger] self.edges().contains((a, b)) ==> a < self.len() && b < self.len(),
            self.edge_count() <= self.len() * self.len(),
    {
        let n = self.len();
        assert forall|a: ID, b: ID| #[trigger] self.edges().contains((a, b)) implies a < n && b < n by {
            let k = choose|k: int| 0 <= k < self.downsets@[a as int]@.len() && self.downsets@[a as int]@[k] == b;
        }
        assert forall|a: ID, b: ID| b < n implies (#[trigger] self.pred_seq(b).contains(a)
            <==> self.edges().contains((a, b))) by {
            if self.pred_seq(b).contains(a) {
                let k = choose|k: int| 0 <= k < self.upsets@[b as int]@.len() && self.upsets@[b as int]@[k] == a;
                assert(self.upsets@[b as int]@[k] < n);
                assert(self.downsets@[a as int]@.contains(b));
            }
        }
        assert forall|i: int| 0 <= i < self.down_seqs().len() implies (#[trigger] self.down_seqs()[i]).len()
            <= n by {
            let s = self.downsets@[i]@;
            assert forall|k: int| 0 <= k < s.len() implies s[k] < n by {
                assert(self.downsets@[i]@[k] < n);
            }
            lemma_distinct_below_len(s, n);
        }
        lemma_sum_lens_bound(self.down_seqs(), n);
    }

    /// An index without nodes.
    pub fn new() -> (res: Self)
        ensures
            res.wf(),
            res.len() == 0,
            res.edges() == Set::<(ID, ID)>::empty(),
            res.edge_count() == 0,
    {
        let res = Reachability { upsets: Vec::new(), downsets: Vec::new() };
        assert(res.edges() =~= Set::<(ID, ID)>::empty());
        assert(res.down_seqs() =~= Seq::<Seq<ID>>::empty());
        res
    }

    /// Adds a node without links; its index is the number of nodes before it.
    pub fn add_node(&mut self) -> (id: ID)
        requires
            old(self).wf(),
            old(self).len() < usize::MAX,
        ensures
            final(self).wf(),
            id == old(self).len(),
            final(self).len() == old(self).len() + 1,
            final(self).edges() == old(self).edges(),
            final(self).edge_count() == old(self).edge_count(),
            final(self).down_seqs() == old(self).down_seqs().push(Seq::<ID>::empty()),
            final(self).up_seqs() == old(self).up_seqs().push(Seq::<ID>::empty()),
    {
        let i = self.upsets.len();
        proof {
            self.lemma_struct();
        }
        self.upsets.push(OrderedSet::new());
        self.downsets.push(OrderedSet::new());
        proof {
            assert(self.down_seqs() =~= old(self).down_seqs().push(Seq::<ID>::empty()));
            assert(self.up_seqs() =~= old(self).up_seqs().push(Seq::<ID>::empty()));
            lemma_sum_lens_push(old(self).down_seqs(), Seq::<ID>::empty());
            assert(self.edges() =~= old(self).edges());
            assert forall|a: ID, b: ID|
                a < self.downsets@.len() && b < self.downsets@.len() implies (
                #[trigger] self.downsets@[a as int]@.contains(b) <==> #[trigger] self.upsets@[b as int]@.contains(a)) by {
                if a == i || b == i {
                    if self.downsets@[a as int]@.contains(b) {
                        let k = choose|k: int| 0 <= k < self.downsets@[a as int]@.len() && self.downsets@[a as int]@[k] == b;
                        assert(old(self).downsets@[a as int]@[k] < i);
                    }
                    if self.upsets@[b as int]@.contains(a) {
                        let k = choose|k: int| 0 <= k < self.upsets@[b as int]@.len() && self.upsets@[b as int]@[k] == a;
                        assert(old(self).upsets@[b as int]@[k] < i);
                    }
                }
            }
        }
        i
    }

    /// Links `lhs` to `rhs`, closes the relation again, and appends to `out`
    /// each pair that became linked, once, in the order in which it was linked.
    #[verifier::rlimit(60)]
    pub fn add_edge(&mut self, lhs: ID, rhs: ID, out: &mut Vec<(ID, ID)>)
        requires
            old(self).wf(),
            lhs < old(self).len(),
            rhs < old(self).len(),
        ensures
            final(self).wf(),
            final(self).len() == old(self).len(),
            final(self).edges() == closure_with(old(self).edges(), lhs, rhs),
            final(out)@.len() >= old(out)@.len(),
            final(out)@.subrange(0, old(out)@.len() as int) == old(out)@,
            final(out)@.subrange(old(out)@.len() as int, final(out)@.len() as int).no_duplicates(),
            final(out)@.subrange(old(out)@.len() as int, final(out)@.len() as int).to_set()
                == final(self).edges().difference(old(self).edges()),
            final(self).edge_count() == old(self).edge_count() + (final(out)@.len() - old(out)@.len()),
            exists|k: nat|
                link_run((old(self).down_seqs(), old(self).up_seqs(), seq![(lhs, rhs)], old(out)@), k) == Some(
                    (final(self).down_seqs(), final(self).up_seqs(), Seq::<(ID, ID)>::empty(), final(out)@),
                ),
            forall|a: ID|
                a < old(self).len() ==> (#[trigger] final(self).succ_seq(a)).len() >= old(self).succ_seq(a).len()
                    && final(self).succ_seq(a).subrange(0, old(self).succ_seq(a).len() as int) == old(self).succ_seq(a),
            forall|a: ID|
                a < old(self).len() ==> (#[trigger] final(self).pred_seq(a)).len() >= old(self).pred_seq(a).len()
                    && final(self).pred_seq(a).subrange(0, old(self).pred_seq(a).len() as int) == old(self).pred_seq(a),
            old(self).edges().contains((lhs, rhs)) ==> final(self).down_seqs() == old(self).down_seqs()
                && final(self).up_seqs() == old(self).up_seqs() && final(out)@ == old(out)@,
            !old(self).edges().contains((lhs, rhs)) ==> final(out)@.len() > old(out)@.len() && final(out)@[old(
                out,
            )@.len() as int] == (lhs, rhs),
    {
        let ghost e0 = self.edges();
        let ghost d0 = self.down_seqs();
        let ghost u0 = self.up_seqs();
        let ghost init: LinkState = (d0, u0, seq![(lhs, rhs)], out@);
        let ghost mut k: nat = 0;
        let ghost out0 = out@;
        let ghost n = self.len();
        let ghost t = closure_with(e0, lhs, rhs);
        let ghost c0 = self.edge_count();
        proof {
            self.lemma_struct();
            lemma_closure_with_transitive(e0, lhs, rhs);
        }
        let mut work: Vec<(ID, ID)> = Vec::new();
        work.push((lhs, rhs));
        assert(work@[0] == (lhs, rhs));
        proof {
            assert(work@ =~= seq![(lhs, rhs)]);
            assert forall|a: ID| a < n implies self.succ_seq(a).subrange(0, d0[a as int].len() as int) == d0[a as int] by {
                assert(self.succ_seq(a).subrange(0, d0[a as int].len() as int) =~= d0[a as int]);
            }
            assert forall|a: ID| a < n implies self.pred_seq(a).subrange(0, u0[a as int].len() as int) == u0[a as int] by {
                assert(self.pred_seq(a).subrange(0, u0[a as int].len() as int) =~= u0[a as int]);
            }
        }
        while work.len() > 0
            invariant
                self.wf_struct(),
                self.len() == n,
                lhs < n,
                rhs < n,
                transitive(t),
                e0.subset_of(self.edges()),
                self.edges().subset_of(t),
                forall|k: int| 0 <= k < work@.len() ==> t.contains(#[trigger] work@[k]),
                forall|k: int| 0 <= k < work@.len() ==> (#[trigger] work@[k]).0 < n && work@[k].1 < n,
                forall|a: ID, b: ID, c: ID|
                    #![trigger self.edges().contains((a, b)), self.edges().contains((b, c))]
                    self.edges().contains((a, b)) && self.edges().contains((b, c)) ==> self.edges().contains((a, c))
                        || work@.contains((a, c)),
                self.edges().contains((lhs, rhs)) || work@.contains((lhs, rhs)),
                out@.len() >= out0.len(),
                out@.subrange(0, out0.len() as int) == out0,
                out@.subrange(out0.len() as int, out@.len() as int).no_duplicates(),
                out@.subrange(out0.len() as int, out@.len() as int).to_set() == self.edges().difference(e0),
                self.edge_count() == c0 + (out@.len() - out0.len()),
                self.edge_count() <= n * n,
                d0.len() == n,
                u0.len() == n,
                e0 == Set::new(|p: (ID, ID)| p.0 < n && d0[p.0 as int].contains(p.1)),
                init == (d0, u0, seq![(lhs, rhs)], out0),
                forall|j: nat|
                    #[trigger] link_run((self.down_seqs(), self.up_seqs(), work@, out@), j) == link_run(init, k + j),
                forall|a: ID|
                    a < n ==> (#[trigger] self.succ_seq(a)).len() >= d0[a as int].len() && self.succ_seq(a).subrange(
                        0,
                        d0[a as int].len() as int,
                    ) == d0[a as int],
                forall|a: ID|
                    a < n ==> (#[trigger] self.pred_seq(a)).len() >= u0[a as int].len() && self.pred_seq(a).subrange(
                        0,
                        u0[a as int].len() as int,
                    ) == u0[a as int],
                out@.len() == out0.len() ==> self.down_seqs() == d0 && self.up_seqs() == u0,
                out@.len() == out0.len() ==> e0.contains((lhs, rhs)) || work@ == seq![(lhs, rhs)],
                !e0.contains((lhs, rhs)) && out@.len() > out0.len() ==> out@[out0.len() as int] == (lhs, rhs),
            decreases n * n - self.edge_count(), work@.len(),
        {
            let ghost cur: LinkState = (self.down_seqs(), self.up_seqs(), work@, out@);
            let ghost w_before = work@;
            let (x, y) = work.pop().unwrap();
            let ghost e1 = self.edges();
            proof {
                assert(w_before == work@.push((x, y)));
                assert(t.contains(w_before[w_before.len() - 1]));
                assert(x < n && y < n);
            }
            let ghost before = *self;
            if self.downsets[x].insert(y) {
                self.upsets[y].insert(x);
                let ghost np0 = out@.subrange(out0.len() as int, out@.len() as int);
                let ghost out_prev = out@;
                proof {
                    self.lemma_after_insert(before, x, y);
                    assert(!e1.contains((x, y)));
                    assert(!np0.contains((x, y))) by {
                        if np0.contains((x, y)) {
                            assert(np0.to_set().contains((x, y)));
                        }
                    }
                }
                out.push((x, y));
                proof {
                    let np1 = out@.subrange(out0.len() as int, out@.len() as int);
                    assert(out@ == out_prev.push((x, y)));
                    assert(np1 =~= np0.push((x, y)));
                    assert(out@.subrange(0, out0.len() as int) =~= out0);
                    np0.lemma_push_to_set_commute((x, y));
                    assert(np1.to_set() =~= np0.to_set().insert((x, y)));
                    assert(self.edges() =~= e1.insert((x, y)));
                    assert(np1.to_set() =~= self.edges().difference(e0));
                    assert forall|i: int, j: int|
                        0 <= i < np1.len() && 0 <= j < np1.len() && i != j implies np1[i] != np1[j] by {
                        if i == np1.len() - 1 {
                            assert(np0.contains(np1[j]));
                        } else if j == np1.len() - 1 {
                            assert(np0.contains(np1[i]));
                        }
                    }
                    self.lemma_struct();
                }
                let ghost mid = work@;
                let ups = self.upsets[x].iter();
                let nu = ups.len();
                for k in 0..nu
                    invariant
                        nu == ups@.len(),
                        ups@ == self.pred_seq(x),
                        work@.len() == mid.len() + k,
                        work@.subrange(0, mid.len() as int) == mid,
                        forall|m: int| 0 <= m < k ==> work@[mid.len() + m] == (#[trigger] ups@[m], y),
                {
                    work.push((ups[k], y));
                }
                let ghost mid2 = work@;
                let downs = self.downsets[y].iter();
                let nd = downs.len();
                for k in 0..nd
                    invariant
                        nd == downs@.len(),
                        downs@ == self.succ_seq(y),
                        work@.len() == mid2.len() + k,
                        work@.subrange(0, mid2.len() as int) == mid2,
                        forall|m: int| 0 <= m < k ==> work@[mid2.len() + m] == (x, #[trigger] downs@[m]),
                {
                    work.push((x, downs[k]));
                }
                proof {
                    self.lemma_struct();
                    let e2 = self.edges();
                    assert forall|m: int| 0 <= m < work@.len() implies t.contains(#[trigger] work@[m])
                        && work@[m].0 < n && work@[m].1 < n by {
                        if m < mid.len() {
                            assert(work@[m] == mid[m]);
                            assert(w_before[m] == mid[m]);
                        } else if m < mid2.len() {
                            let p = ups@[m - mid.len()];
                            assert(work@[m] == (p, y));
                            assert(self.pred_seq(x).contains(p));
                            assert(e2.contains((p, x)));
                        } else {
                            let q = downs@[m - mid2.len()];
                            assert(work@[m] == (x, q));
                            assert(self.succ_seq(y).contains(q));
                            assert(e2.contains((y, q)));
                        }
                    }
                    assert forall|a: ID, b: ID, c: ID|
                        e2.contains((a, b)) && e2.contains((b, c)) implies e2.contains((a, c))
                            || work@.contains((a, c)) by {
                        if (a, b) == (x, y) {
                            if !e2.contains((a, c)) {
                                assert(self.succ_seq(y).contains(c));
                                let k = choose|k: int| 0 <= k < downs@.len() && downs@[k] == c;
                                assert(work@[mid2.len() + k] == (x, c));
                            }
                        } else if (b, c) == (x, y) {
                            if !e2.contains((a, c)) {
                                assert(self.pred_seq(x).contains(a));
                                let k = choose|k: int| 0 <= k < ups@.len() && ups@[k] == a;
                                assert(work@[mid.len() + k] == (a, y));
                            }
                        } else {
                            assert(e1.contains((a, b)) && e1.contains((b, c)));
                            if !e2.contains((a, c)) {
                                assert(w_before.contains((a, c)));
                                let k = choose|k: int| 0 <= k < w_before.len() && w_before[k] == (a, c);
                                assert(k < mid.len());
                                assert(work@[k] == (a, c));
                            }
                        }
                    }
                    if !e2.contains((lhs, rhs)) {
                        let k = choose|k: int| 0 <= k < w_before.len() && w_before[k] == (lhs, rhs);
                        assert(k < mid.len());
                        assert(work@[k] == (lhs, rhs));
                    }
                    // The state moved by exactly one step of the linking work.
                    assert(self.down_seqs() =~= cur.0.update(x as int, cur.0[x as int].push(y)));
                    let u = if cur.1[y as int].contains(x) {
                        cur.1
                    } else {
                        cur.1.update(y as int, cur.1[y as int].push(x))
                    };
                    assert(self.up_seqs() =~= u);
                    assert(mid =~= w_before.drop_last());
                    assert(work@ =~= mid + ups@.map_values(|p: ID| (p, y)) + downs@.map_values(|q: ID| (x, q)));
                    assert(cur.2.last() == (x, y));
                    assert(!cur.0[x as int].contains(y));
                    let next: LinkState = (self.down_seqs(), self.up_seqs(), work@, out@);
                    assert(link_step(cur) == next);
                    lemma_link_run_step(init, cur, next, k);
                    assert forall|a: ID| a < n implies (#[trigger] self.succ_seq(a)).len() >= d0[a as int].len()
                        && self.succ_seq(a).subrange(0, d0[a as int].len() as int) == d0[a as int] by {
                        assert(before.succ_seq(a).len() >= d0[a as int].len());
                        assert(before.succ_seq(a).subrange(0, d0[a as int].len() as int) == d0[a as int]);
                        if a == x {
                            assert(self.succ_seq(a).subrange(0, d0[a as int].len() as int) =~= cur.0[a as int].subrange(
                                0,
                                d0[a as int].len() as int,
                            ));
                        }
                    }
                    assert forall|a: ID| a < n implies (#[trigger] self.pred_seq(a)).len() >= u0[a as int].len()
                        && self.pred_seq(a).subrange(0, u0[a as int].len() as int) == u0[a as int] by {
                        assert(before.pred_seq(a).len() >= u0[a as int].len());
                        assert(before.pred_seq(a).subrange(0, u0[a as int].len() as int) == u0[a as int]);
                        if a == y {
                            assert(self.pred_seq(a).subrange(0, u0[a as int].len() as int) =~= cur.1[a as int].subrange(
                                0,
                                u0[a as int].len() as int,
                            ));
                        }
                    }
                    if !e0.contains((lhs, rhs)) {
                        if out_prev.len() == out0.len() {
                            assert(w_before =~= seq![(lhs, rhs)]);
                        } else {
                            assert(out_prev[out0.len() as int] == (lhs, rhs));
                        }
                        assert(out@[out0.len() as int] == (lhs, rhs));
                    }
                }
                proof {
                    k = k + 1;
                }
            } else {
                proof {
                    assert(self.down_seqs() =~= before.down_seqs());
                    assert(self.downsets@[x as int].wf());
                    assert(self.wf_struct()) by {
                        assert forall|a: ID, b: ID|
                            a < self.downsets@.len() && b < self.downsets@.len() implies (
                            #[trigger] self.downsets@[a as int]@.contains(b) <==> #[trigger] self.upsets@[b as int]@.contains(a)) by {
                            assert(self.downsets@[a as int]@ == before.downsets@[a as int]@);
                        }
                        assert forall|a: int, k: int|
                            0 <= a < self.downsets@.len() && 0 <= k < self.downsets@[a]@.len() implies #[trigger] self.downsets@[a]@[k]
                                < self.downsets@.len() by {
                            assert(self.downsets@[a]@ == before.downsets@[a]@);
                        }
                    }
                    self.lemma_struct();
                    assert(self.edges() =~= e1);
                    assert(e1.contains((x, y)));
                    assert forall|a: ID, b: ID, c: ID|
                        e1.contains((a, b)) && e1.contains((b, c)) implies e1.contains((a, c))
                            || work@.contains((a, c)) by {
                        if !e1.contains((a, c)) {
                            let k = choose|k: int| 0 <= k < w_before.len() && w_before[k] == (a, c);
                            assert(k < work@.len());
                            assert(work@[k] == (a, c));
                        }
                    }
                    if !e1.contains((lhs, rhs)) {
                        let k = choose|k: int| 0 <= k < w_before.len() && w_before[k] == (lhs, rhs);
                        assert(work@[k] == (lhs, rhs));
                    }
                    assert(self.up_seqs() == cur.1);
                    assert(work@ =~= w_before.drop_last());
                    assert(cur.2.last() == (x, y));
                    assert(cur.0[x as int].contains(y));
                    let next: LinkState = (self.down_seqs(), self.up_seqs(), work@, out@);
                    assert(link_step(cur) == next);
                    lemma_link_run_step(init, cur, next, k);
                    assert forall|a: ID| a < n implies (#[trigger] self.succ_seq(a)).len() >= d0[a as int].len()
                        && self.succ_seq(a).subrange(0, d0[a as int].len() as int) == d0[a as int] by {
                        assert(self.succ_seq(a) == before.succ_seq(a));
                    }
                    assert forall|a: ID| a < n implies (#[trigger] self.pred_seq(a)).len() >= u0[a as int].len()
                        && self.pred_seq(a).subrange(0, u0[a as int].len() as int) == u0[a as int] by {
                        assert(self.pred_seq(a) == before.pred_seq(a));
                    }
                    if out@.len() == out0.len() && !e0.contains((lhs, rhs)) {
                        assert(w_before =~= seq![(lhs, rhs)]);
                        assert(d0[lhs as int].contains(rhs));
                        assert(e0.contains((lhs, rhs)));
                    }
                }
                proof {
                    k = k + 1;
                }
            }
        }
        proof {
            let e = self.edges();
            assert(transitive(e));
            assert forall|p: (ID, ID)| t.contains(p) implies e.contains(p) by {
                if !e0.contains(p) {
                    if p.0 != lhs {
                        assert(e.contains((p.0, lhs)));
                        assert(e.contains((p.0, rhs)));
                    }
                    if p.1 != rhs {
                        assert(e.contains((rhs, p.1)));
                    }
                }
            }
            assert(e =~= t);
            let fin: LinkState = (self.down_seqs(), self.up_seqs(), work@, out@);
            assert(work@ =~= Seq::<(ID, ID)>::empty());
            assert(link_run(fin, 0) == link_run(init, k + 0));
            assert(link_run(init, k) == Some(fin));
            let seg = out@.subrange(out0.len() as int, out@.len() as int);
            if e0.contains((lhs, rhs)) {
                assert(transitive(e0));
                assert forall|p: (ID, ID)| t.contains(p) implies e0.contains(p) by {
                    if !e0.contains(p) {
                        if p.0 != lhs {
                            assert(e0.contains((p.0, lhs)) && e0.contains((lhs, rhs)));
                            assert(e0.contains((p.0, rhs)));
                        }
                        assert(e0.contains((p.0, rhs)));
                        if p.1 != rhs {
                            assert(e0.contains((rhs, p.1)));
                        }
                    }
                }
                assert(e.difference(e0) =~= Set::<(ID, ID)>::empty());
                if seg.len() > 0 {
                    assert(seg.to_set().contains(seg[0]));
                }
                assert(out@ =~= out0);
            } else {
                assert(e.difference(e0).contains((lhs, rhs)));
                if out@.len() == out0.len() {
                    assert(seg.to_set().contains((lhs, rhs)));
                }
            }
        }
    }

    /// After linking `x` to `y` in both indexes, which were not linked before.
    proof fn lemma_after_insert(&self, before: Self, x: ID, y: ID)
        requires
            before.wf_struct(),
            x < before.len(),
            y < before.len(),
            !before.downsets@[x as int]@.contains(y),
            self.upsets@.len() == before.upsets@.len(),
            self.downsets@.len() == before.downsets@.len(),
            forall|i: int| 0 <= i < self.downsets@.len() && i != x ==> self.downsets@[i] == before.downsets@[i],
            forall|i: int| 0 <= i < self.upsets@.len() && i != y ==> self.upsets@[i] == before.upsets@[i],
            self.downsets@[x as int].wf(),
            self.upsets@[y as int].wf(),
            self.downsets@[x as int]@ == before.downsets@[x as int]@.push(y),
            self.upsets@[y as int]@ == (if before.upsets@[y as int]@.contains(x) {
                before.upsets@[y as int]@
            } else {
                before.upsets@[y as int]@.push(x)
            }),
        ensures
            self.wf_struct(),
            self.len() == before.len(),
            self.edges() == before.edges().insert((x, y)),
            self.edge_count() == before.edge_count() + 1,
    {
        assert(self.down_seqs() =~= before.down_seqs().update(x as int, before.down_seqs()[x as int].push(y)));
        lemma_sum_lens_update(before.down_seqs(), x as int, before.down_seqs()[x as int].push(y));
        assert forall|p: (ID, ID)| self.edges().contains(p) <==> before.edges().insert((x, y)).contains(p) by {
            if p.0 < self.len() && p.0 == x {
                assert(self.succ_seq(p.0) == before.succ_seq(p.0).push(y));
                if self.succ_seq(p.0).contains(p.1) && p.1 != y {
                    let k = choose|k: int| 0 <= k < self.succ_seq(p.0).len() && self.succ_seq(p.0)[k] == p.1;
                    assert(before.succ_seq(p.0)[k] == p.1);
                }
                if before.succ_seq(p.0).contains(p.1) {
                    let k = choose|k: int| 0 <= k < before.succ_seq(p.0).len() && before.succ_seq(p.0)[k] == p.1;
                    assert(self.succ_seq(p.0)[k] == p.1);
                }
                if p.1 == y {
                    assert(self.succ_seq(p.0)[self.succ_seq(p.0).len() - 1] == y);
                }
            } else if p.0 < self.len() {
                assert(self.succ_seq(p.0) == before.succ_seq(p.0));
            }
        }
        assert(self.edges() =~= before.edges().insert((x, y)));
        assert forall|a: ID, b: ID|
            a < self.downsets@.len() && b < self.downsets@.len() implies (
            #[trigger] self.downsets@[a as int]@.contains(b) <==> #[trigger] self.upsets@[b as int]@.contains(a)) by {
            if a == x && b == y {
                assert(self.downsets@[a as int]@[self.downsets@[a as int]@.len() - 1] == b);
                if !before.upsets@[y as int]@.contains(x) {
                    assert(self.upsets@[b as int]@[self.upsets@[b as int]@.len() - 1] == a);
                }
            } else if a == x {
                if self.downsets@[a as int]@.contains(b) {
                    let k = choose|k: int| 0 <= k < self.downsets@[a as int]@.len() && self.downsets@[a as int]@[k] == b;
                    assert(before.downsets@[a as int]@[k] == b);
                }
                if before.downsets@[a as int]@.contains(b) {
                    let k = choose|k: int| 0 <= k < before.downsets@[a as int]@.len() && before.downsets@[a as int]@[k] == b;
                    assert(self.downsets@[a as int]@[k] == b);
                }
            } else if b == y {
                if self.upsets@[b as int]@.contains(a) {
                    let k = choose|k: int| 0 <= k < self.upsets@[b as int]@.len() && self.upsets@[b as int]@[k] == a;
                    if !before.upsets@[y as int]@.contains(x) && k < before.upsets@[y as int]@.len() {
                        assert(before.upsets@[b as int]@[k] == a);
                    }
                }
                if before.upsets@[b as int]@.contains(a) {
                    let k = choose|k: int| 0 <= k < before.upsets@[b as int]@.len() && before.upsets@[b as int]@[k] == a;
                    assert(self.upsets@[b as int]@[k] == a);
                }
            }
        }
        assert forall|a: int, k: int|
            0 <= a < self.downsets@.len() && 0 <= k < self.downsets@[a]@.len() implies #[trigger] self.downsets@[a]@[k]
                < self.downsets@.len() by {
            if a == x && k < before.downsets@[a]@.len() {
                assert(before.downsets@[a]@[k] == self.downsets@[a]@[k]);
            }
        }
        assert forall|b: int, k: int|
            0 <= b < self.upsets@.len() && 0 <= k < self.upsets@[b]@.len() implies #[trigger] self.upsets@[b]@[k]
                < self.upsets@.len() by {
            if b == y && k < before.upsets@[b]@.len() {
                assert(before.upsets@[b]@[k] == self.upsets@[b]@[k]);
            }
        }
    }

    /// The predecessors of `id`, in the order in which they were linked.
    pub fn predecessors(&self, id: ID) -> (res: &[ID])
        requires
            self.wf(),
            id < self.len(),
        ensures
            res@ == self.pred_seq(id),
    {
        self.upsets[id].iter()
    }

    /// The successors of `id`, in the order in which they were linked.
    pub fn successors(&self, id: ID) -> (res: &[ID])
        requires
            self.wf(),
            id < self.len(),
        ensures
            res@ == self.succ_seq(id),
    {
        self.downsets[id].iter()
    }

    /// The predecessors of `id`, then its successors.
    pub fn all_linked(&self, id: ID) -> (res: Vec<ID>)
        requires
            self.wf(),
            id < self.len(),
        ensures
            res@ == self.pred_seq(id) + self.succ_seq(id),
    {
        let preds = self.predecessors(id);
        let succs = self.successors(id);
        let mut res: Vec<ID> = Vec::new();
        for i in 0..preds.len()
            invariant
                res@ == preds@.subrange(0, i as int),
        {
            res.push(preds[i]);
            proof {
                assert(res@ =~= preds@.subrange(0, i + 1));
            }
        }
        for i in 0..succs.len()
            invariant
                res@ == preds@ + succs@.subrange(0, i as int),
        {
            res.push(succs[i]);
            proof {
                assert(res@ =~= preds@ + succs@.subrange(0, i + 1));
            }
        }
        proof {
            assert(preds@.subrange(0, preds@.len() as int) =~= preds@);
            assert(succs@.subrange(0, succs@.len() as int) =~= succs@);
        }
        res
    }
}

} // verus!
