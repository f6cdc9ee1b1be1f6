//! Floyd-Warshall algorithm.
//!
//! The relaxation engine is parameterized by a combination operator and an
//! acceptance comparator, so the same engine serves shortest-path,
//! bottleneck-path, most-reliable-path and similar closure problems.

use crate::graph::Graph;
use crate::result::FloydWarshallResult;
use core::marker::PhantomData;
use vstd::prelude::*;

verus! {

/// Are the intermediate, start and end nodes of a relaxation triple pairwise
/// distinct?
pub open spec fn spec_distinct(k: int, i: int, j: int) -> bool {
    k != i && k != j && i != j
}

/// One relaxation step on the working state `st = (path, next)` for the
/// triple `(k, i, j)`: if a path from `i` to `k` and one from `k` to `j` are
/// known, their combination is accepted when no weight is recorded for
/// `(i, j)` yet, or when the comparator accepts it over the recorded one; an
/// accepted candidate also records, as the first hop of `(i, j)`, the first
/// hop already recorded for `(i, k)`.
pub open spec fn fw_step<F>(
    st: (Map<(int, int), F>, Map<(int, int), usize>),
    op: spec_fn(F, F) -> F,
    cmp: spec_fn(F, F) -> bool,
    discard_loops: bool,
    k: int,
    i: int,
    j: int,
) -> (Map<(int, int), F>, Map<(int, int), usize>) {
    let p = st.0;
    let nx = st.1;
    if discard_loops && !spec_distinct(k, i, j) {
        st
    } else if p.dom().contains((i, k)) && p.dom().contains((k, j)) {
        let candidate = op(p[(i, k)], p[(k, j)]);
        if !p.dom().contains((i, j)) || cmp(candidate, p[(i, j)]) {
            (p.insert((i, j), candidate), nx.insert((i, j), nx[(i, k)]))
        } else {
            st
        }
    } else {
        st
    }
}

/// The state after the relaxation steps for the triples `(k, i, 0 .. j)`.
pub open spec fn fw_row<F>(
    st: (Map<(int, int), F>, Map<(int, int), usize>),
    op: spec_fn(F, F) -> F,
    cmp: spec_fn(F, F) -> bool,
    discard_loops: bool,
    k: int,
    i: int,
    j: nat,
) -> (Map<(int, int), F>, Map<(int, int), usize>)
    decreases j,
{
    if j == 0 {
        st
    } else {
        fw_step(
            fw_row(st, op, cmp, discard_loops, k, i, (j - 1) as nat),
            op,
            cmp,
            discard_loops,
            k,
            i,
            j - 1,
        )
    }
}

/// The state after the relaxation steps for the triples
/// `(k, 0 .. i, 0 .. n)`.
pub open spec fn fw_rows<F>(
    st: (Map<(int, int), F>, Map<(int, int), usize>),
    op: spec_fn(F, F) -> F,
    cmp: spec_fn(F, F) -> bool,
    discard_loops: bool,
    n: nat,
    k: int,
    i: nat,
) -> (Map<(int, int), F>, Map<(int, int), usize>)
    decreases i,
{
    if i == 0 {
        st
    } else {
        fw_row(
            fw_rows(st, op, cmp, discard_loops, n, k, (i - 1) as nat),
            op,
            cmp,
            discard_loops,
            k,
            i - 1,
            n,
        )
    }
}

/// The state after the relaxation steps for the triples
/// `(0 .. k, 0 .. n, 0 .. n)`, in that order: `k` outermost.
pub open spec fn fw_ks<F>(
    st: (Map<(int, int), F>, Map<(int, int), usize>),
    op: spec_fn(F, F) -> F,
    cmp: spec_fn(F, F) -> bool,
    discard_loops: bool,
    n: nat,
    k: nat,
) -> (Map<(int, int), F>, Map<(int, int), usize>)
    decreases k,
{
    if k == 0 {
        st
    } else {
        fw_rows(fw_ks(st, op, cmp, discard_loops, n, (k - 1) as nat), op, cmp, discard_loops, n, k
            - 1, n)
    }
}

/// One initialization step of the next-hop map: a direct edge `(i, j)` of the
/// input records `j` as its first hop.
pub open spec fn init_next_at<F>(
    g: Map<(int, int), F>,
    nx: Map<(int, int), usize>,
    i: int,
    j: int,
) -> Map<(int, int), usize> {
    if g.dom().contains((i, j)) {
        nx.insert((i, j), j as usize)
    } else {
        nx
    }
}

/// The next-hop map after the initialization steps for the pairs
/// `(i, 0 .. j)`.
pub open spec fn init_next_row<F>(
    g: Map<(int, int), F>,
    nx: Map<(int, int), usize>,
    i: int,
    j: nat,
) -> Map<(int, int), usize>
    decreases j,
{
    if j == 0 {
        nx
    } else {
        init_next_at(g, init_next_row(g, nx, i, (j - 1) as nat), i, j - 1)
    }
}

/// The next-hop map after the initialization steps for the pairs
/// `(0 .. i, 0 .. n)`.
pub open spec fn init_next_rows<F>(
    g: Map<(int, int), F>,
    nx: Map<(int, int), usize>,
    n: nat,
    i: nat,
) -> Map<(int, int), usize>
    decreases i,
{
    if i == 0 {
        nx
    } else {
        init_next_row(g, init_next_rows(g, nx, n, (i - 1) as nat), i - 1, n)
    }
}

/// The initial next-hop map of a run over the nodes `0 .. n`: every direct
/// edge `(a, b)` of the input records `b`, and nothing else is recorded.
pub open spec fn init_next<F>(g: Map<(int, int), F>, n: nat) -> Map<(int, int), usize> {
    init_next_rows(g, Map::<(int, int), usize>::empty(), n, n)
}

/// What a whole run computes over the nodes `0 .. n`: the working path map
/// starts as the input's edge map and the next-hop map as `init_next`; then
/// every relaxation triple `(k, i, j)` is applied exactly once, with `k`
/// outermost.
pub open spec fn spec_fw<F>(
    g: Map<(int, int), F>,
    op: spec_fn(F, F) -> F,
    cmp: spec_fn(F, F) -> bool,
    discard_loops: bool,
    n: nat,
) -> (Map<(int, int), F>, Map<(int, int), usize>) {
    fw_ks((g, init_next(g, n)), op, cmp, discard_loops, n, n)
}

/// A trait group for `FloydWarshall`'s weighted edges: copyable values with a
/// default combination (a total form of the arithmetic sum) and a default
/// acceptance comparison (strictly less).
pub trait FloydWarshallTrait: Copy + Sized {
    /// What the default combination returns: the arithmetic sum, saturating
    /// at the type's bounds so that it is total.
    spec fn spec_combine(self, other: Self) -> Self;

    /// What the default acceptance comparison returns: is `self` strictly
    /// better (less) than `other`?
    spec fn spec_better(self, other: Self) -> bool;

    /// Combine two weights with the default operator.
    fn combine(self, other: Self) -> (r: Self)
        ensures
            r == self.spec_combine(other),
    ;

    /// Is `self` strictly better than `other` under the default comparison?
    fn better(self, other: Self) -> (r: bool)
        ensures
            r == self.spec_better(other),
    ;
}

impl FloydWarshallTrait for i64 {
    open spec fn spec_combine(self, other: i64) -> i64 {
        if self + other > i64::MAX {
            i64::MAX
        } else if self + other < i64::MIN {
            i64::MIN
        } else {
            (self + other) as i64
        }
    }

    open spec fn spec_better(self, other: i64) -> bool {
        self < other
    }

    fn combine(self, other: i64) -> (r: i64) {
        if other >= 0 {
            if self > i64::MAX - other {
                i64::MAX
            } else {
                self + other
            }
        } else {
            if self < i64::MIN - other {
                i64::MIN
            } else {
                self + other
            }
        }
    }

    fn better(self, other: i64) -> (r: bool) {
        self < other
    }
}

impl FloydWarshallTrait for u64 {
    open spec fn spec_combine(self, other: u64) -> u64 {
        if self + other > u64::MAX {
            u64::MAX
        } else {
            (self + other) as u64
        }
    }

    open spec fn spec_better(self, other: u64) -> bool {
        self < other
    }

    fn combine(self, other: u64) -> (r: u64) {
        self.saturating_add(other)
    }

    fn better(self, other: u64) -> (r: bool) {
        self < other
    }
}

/// A combination operator over weights, together with its mathematical
/// meaning, so that contracts can speak of what the operator computes.
pub trait Combiner<F>: Sized {
    /// The operator is fit for use by the engine: total and deterministic.
    spec fn wf(&self) -> bool;

    /// The mathematical function the operator computes.
    spec fn spec_combine(&self, x: F, y: F) -> F;

    /// Merge two path-segment weights into one.
    fn combine(&self, x: F, y: F) -> (r: F)
        requires
            self.wf(),
        ensures
            r == self.spec_combine(x, y),
    ;
}

/// An acceptance comparator over weights, together with its mathematical
/// meaning: does a candidate weight supersede a stored one?
pub trait Comparator<F>: Sized {
    /// The comparator is fit for use by the engine: total and deterministic.
    spec fn wf(&self) -> bool;

    /// The mathematical predicate the comparator decides.
    spec fn spec_accepts(&self, candidate: F, stored: F) -> bool;

    /// Does `candidate` supersede `stored`?
    fn accepts(&self, candidate: F, stored: F) -> (r: bool)
        requires
            self.wf(),
        ensures
            r == self.spec_accepts(candidate, stored),
    ;
}

/// The default combination operator: the weight type's own sum.
pub struct DefaultOp;

impl<F: FloydWarshallTrait> Combiner<F> for DefaultOp {
    open spec fn wf(&self) -> bool {
        true
    }

    open spec fn spec_combine(&self, x: F, y: F) -> F {
        x.spec_combine(y)
    }

    fn combine(&self, x: F, y: F) -> (r: F) {
        x.combine(y)
    }
}

/// The default acceptance comparator: the candidate must be strictly better.
pub struct DefaultCmp;

impl<F: FloydWarshallTrait> Comparator<F> for DefaultCmp {
    open spec fn wf(&self) -> bool {
        true
    }

    open spec fn spec_accepts(&self, candidate: F, stored: F) -> bool {
        candidate.spec_better(stored)
    }

    fn accepts(&self, candidate: F, stored: F) -> (r: bool) {
        candidate.better(stored)
    }
}

/// A combination operator supplied by the caller as a callable value.
pub struct FnOp<OpF> {
    /// The callable that computes the combination.
    pub f: OpF,
}

impl<F, OpF: Fn(F, F) -> F> Combiner<F> for FnOp<OpF> {
    /// The callable must be total (callable on every pair of weights) and
    /// deterministic (at most one result per pair of weights), which the
    /// engine requires of every operator.
    open spec fn wf(&self) -> bool {
        &&& forall|x: F, y: F| call_requires(self.f, (x, y))
        &&& forall|x: F, y: F, r1: F, r2: F|
            call_ensures(self.f, (x, y), r1) && call_ensures(self.f, (x, y), r2) ==> r1 == r2
    }

    open spec fn spec_combine(&self, x: F, y: F) -> F {
        choose|r: F| call_ensures(self.f, (x, y), r)
    }

    fn combine(&self, x: F, y: F) -> (r: F) {
        let r = (self.f)(x, y);
        proof {
            assert(call_ensures(self.f, (x, y), r));
        }
        r
    }
}

/// An acceptance comparator supplied by the caller as a callable value.
pub struct FnCmp<CmpF> {
    /// The callable that decides acceptance.
    pub f: CmpF,
}

impl<F, CmpF: Fn(F, F) -> bool> Comparator<F> for FnCmp<CmpF> {
    /// The callable must be total (callable on every pair of weights) and
    /// deterministic (at most one verdict per pair of weights), which the
    /// engine requires of every comparator.
    open spec fn wf(&self) -> bool {
        &&& forall|x: F, y: F| call_requires(self.f, (x, y))
        &&& forall|x: F, y: F, r1: bool, r2: bool|
            call_ensures(self.f, (x, y), r1) && call_ensures(self.f, (x, y), r2) ==> r1 == r2
    }

    open spec fn spec_accepts(&self, candidate: F, stored: F) -> bool {
        choose|r: bool| call_ensures(self.f, (candidate, stored), r)
    }

    fn accepts(&self, candidate: F, stored: F) -> (r: bool) {
        let r = (self.f)(candidate, stored);
        proof {
            assert(call_ensures(self.f, (candidate, stored), r));
        }
        r
    }
}

/// Floyd-Warshall algorithm structure.
///
/// # `FloydWarshall` algorithm is parameterized over:
///
/// - Weight type `F` giving a weight to edges.
/// - Combination operator `Op` merging two path-segment weights.
/// - Acceptance comparator `Cmp` deciding whether a candidate weight
///   supersedes a stored one.
pub struct FloydWarshall<F, Op = DefaultOp, Cmp = DefaultCmp> {
    /// Operator to be used for weighted edges.
    pub op: Op,
    /// Comparison to be used for weighted paths to determine if a newly
    /// tested path through `k` should be accepted or not.
    pub cmp: Cmp,
    /// Discard loops (triples whose intermediate, start and end nodes are not
    /// pairwise distinct) from the calculation.
    pub discard_loops: bool,
    /// The engine itself stores no weight; this records the weight type.
    pub weight: PhantomData<F>,
}

impl<F: FloydWarshallTrait> FloydWarshall<F, DefaultOp, DefaultCmp> {
    /// Create a new instance of the FloydWarshall structure with default
    /// settings: combination by sum, acceptance by strictly-less, loops
    /// discarded.
    pub fn new() -> (r: Self)
        ensures
            r.op == DefaultOp,
            r.cmp == DefaultCmp,
            r.discard_loops == true,
    {
        FloydWarshall { op: DefaultOp, cmp: DefaultCmp, discard_loops: true, weight: PhantomData }
    }
}

impl<F, OpF: Fn(F, F) -> F, CmpF: Fn(F, F) -> bool> FloydWarshall<F, FnOp<OpF>, FnCmp<CmpF>> {
    /// Create a new instance of the FloydWarshall structure with customized
    /// settings.
    ///
    /// You can set:
    /// - the `op` (operator) to be used for weighted edges
    /// - the `cmp` (comparison) to be used for weighted paths
    ///
    /// Loops are discarded, as with the default settings.
    pub fn new_customized(op: OpF, cmp: CmpF) -> (r: Self)
        ensures
            r.op == (FnOp { f: op }),
            r.cmp == (FnCmp { f: cmp }),
            r.discard_loops == true,
    {
        Self::new_fully_customized(op, cmp, true)
    }

    /// Create a new instance of the FloydWarshall structure with customized
    /// settings.
    ///
    /// You can set:
    /// - the `op` (operator) to be used for weighted edges
    /// - the `cmp` (comparison) to be used for weighted paths
    /// - the `discard_loops` flag to discard loops (triples whose nodes are
    ///   not pairwise distinct) from the calculation
    pub fn new_fully_customized(op: OpF, cmp: CmpF, discard_loops: bool) -> (r: Self)
        ensures
            r.op == (FnOp { f: op }),
            r.cmp == (FnCmp { f: cmp }),
            r.discard_loops == discard_loops,
    {
        FloydWarshall {
            op: FnOp { f: op },
            cmp: FnCmp { f: cmp },
            discard_loops,
            weight: PhantomData,
        }
    }
}

proof fn lemma_init_next_row<F>(g: Map<(int, int), F>, nx: Map<(int, int), usize>, i: int, j: nat)
    ensures
        forall|p: (int, int)|
            #![trigger init_next_row(g, nx, i, j).dom().contains(p)]
            init_next_row(g, nx, i, j).dom().contains(p) <==> (nx.dom().contains(p) || (
            g.dom().contains(p) && p.0 == i && 0 <= p.1 < j)),
        forall|p: (int, int)|
            #![trigger init_next_row(g, nx, i, j)[p]]
            init_next_row(g, nx, i, j).dom().contains(p) ==> init_next_row(g, nx, i, j)[p] == (
            if g.dom().contains(p) && p.0 == i && 0 <= p.1 < j {
                p.1 as usize
            } else {
                nx[p]
            }),
    decreases j,
{
    if j > 0 {
        let jm = (j - 1) as nat;
        lemma_init_next_row(g, nx, i, jm);
        let prev = init_next_row(g, nx, i, jm);
        assert(init_next_row(g, nx, i, j) == init_next_at(g, prev, i, j - 1));
        assert forall|p: (int, int)|
            init_next_row(g, nx, i, j).dom().contains(p) <==> (nx.dom().contains(p) || (
            g.dom().contains(p) && p.0 == i && 0 <= p.1 < j)) by {
            assert(prev.dom().contains(p) <==> (nx.dom().contains(p) || (g.dom().contains(p)
                && p.0 == i && 0 <= p.1 < jm)));
        }
        assert forall|p: (int, int)|
            init_next_row(g, nx, i, j).dom().contains(p) implies init_next_row(g, nx, i, j)[p] == (
        if g.dom().contains(p) && p.0 == i && 0 <= p.1 < j {
            p.1 as usize
        } else {
            nx[p]
        }) by {
            assert(prev.dom().contains(p) <==> (nx.dom().contains(p) || (g.dom().contains(p)
                && p.0 == i && 0 <= p.1 < jm)));
            if prev.dom().contains(p) {
                assert(prev[p] == (if g.dom().contains(p) && p.0 == i && 0 <= p.1 < jm {
                    p.1 as usize
                } else {
                    nx[p]
                }));
            }
        }
    }
}

proof fn lemma_init_next_rows<F>(g: Map<(int, int), F>, nx: Map<(int, int), usize>, n: nat, i: nat)
    ensures
        forall|p: (int, int)|
            #![trigger init_next_rows(g, nx, n, i).dom().contains(p)]
            init_next_rows(g, nx, n, i).dom().contains(p) <==> (nx.dom().contains(p) || (
            g.dom().contains(p) && 0 <= p.0 < i && 0 <= p.1 < n)),
        forall|p: (int, int)|
            #![trigger init_next_rows(g, nx, n, i)[p]]
            init_next_rows(g, nx, n, i).dom().contains(p) ==> init_next_rows(g, nx, n, i)[p] == (
            if g.dom().contains(p) && 0 <= p.0 < i && 0 <= p.1 < n {
                p.1 as usize
            } else {
                nx[p]
            }),
    decreases i,
{
    if i > 0 {
        lemma_init_next_rows(g, nx, n, (i - 1) as nat);
        lemma_init_next_row(g, init_next_rows(g, nx, n, (i - 1) as nat), i - 1, n);
    }
}

/// The initial next-hop map records, for every direct edge `(a, b)` of the
/// input, the end node `b` as the first hop, and records nothing else.
pub proof fn lemma_init_next<F>(g: Map<(int, int), F>, n: nat)
    requires
        forall|p: (int, int)| #[trigger]
            g.dom().contains(p) ==> 0 <= p.0 < n && 0 <= p.1 < n,
    ensures
        init_next(g, n).dom() == g.dom(),
        forall|p: (int, int)| #[trigger]
            g.dom().contains(p) ==> init_next(g, n)[p] == p.1 as usize,
{
    lemma_init_next_rows(g, Map::<(int, int), usize>::empty(), n, n);
    assert(init_next(g, n).dom() =~= g.dom());
}

/// Monotonic improvement: a relaxation step never removes a recorded weight,
/// and replaces a recorded weight only with a value that the acceptance
/// comparator accepts over the previous one — it never regresses.
pub proof fn lemma_step_monotonic<F>(
    st: (Map<(int, int), F>, Map<(int, int), usize>),
    op: spec_fn(F, F) -> F,
    cmp: spec_fn(F, F) -> bool,
    discard_loops: bool,
    k: int,
    i: int,
    j: int,
    a: int,
    b: int,
)
    requires
        st.0.dom().contains((a, b)),
    ensures
        fw_step(st, op, cmp, discard_loops, k, i, j).0.dom().contains((a, b)),
        fw_step(st, op, cmp, discard_loops, k, i, j).0[(a, b)] == st.0[(a, b)] || cmp(
            fw_step(st, op, cmp, discard_loops, k, i, j).0[(a, b)],
            st.0[(a, b)],
        ),
{
}

/// Right after the relaxation step for a triple `(k, i, j)` of pairwise
/// distinct nodes, that very triple is not improving, provided the
/// comparator is irreflexive: the combination of the stored `(i, k)` and
/// `(k, j)` weights is not accepted over the stored `(i, j)` weight. This
/// speaks of the state the step leaves behind; a later step may record a
/// better `(i, k)` or `(k, j)` weight and make the triple improving again.
pub proof fn lemma_step_quiescent<F>(
    st: (Map<(int, int), F>, Map<(int, int), usize>),
    op: spec_fn(F, F) -> F,
    cmp: spec_fn(F, F) -> bool,
    discard_loops: bool,
    k: int,
    i: int,
    j: int,
)
    requires
        spec_distinct(k, i, j),
        forall|x: F| !#[trigger] cmp(x, x),
    ensures
        ({
            let p2 = fw_step(st, op, cmp, discard_loops, k, i, j).0;
            p2.dom().contains((i, k)) && p2.dom().contains((k, j)) ==> p2.dom().contains((i, j))
                && !cmp(op(p2[(i, k)], p2[(k, j)]), p2[(i, j)])
        }),
{
}

proof fn lemma_row_no_self_loop<F>(
    st: (Map<(int, int), F>, Map<(int, int), usize>),
    op: spec_fn(F, F) -> F,
    cmp: spec_fn(F, F) -> bool,
    k: int,
    i: int,
    j: nat,
    a: int,
)
    requires
        !st.0.dom().contains((a, a)),
        !st.1.dom().contains((a, a)),
    ensures
        !fw_row(st, op, cmp, true, k, i, j).0.dom().contains((a, a)),
        !fw_row(st, op, cmp, true, k, i, j).1.dom().contains((a, a)),
    decreases j,
{
    if j > 0 {
        lemma_row_no_self_loop(st, op, cmp, k, i, (j - 1) as nat, a);
    }
}

proof fn lemma_rows_no_self_loop<F>(
    st: (Map<(int, int), F>, Map<(int, int), usize>),
    op: spec_fn(F, F) -> F,
    cmp: spec_fn(F, F) -> bool,
    n: nat,
    k: int,
    i: nat,
    a: int,
)
    requires
        !st.0.dom().contains((a, a)),
        !st.1.dom().contains((a, a)),
    ensures
        !fw_rows(st, op, cmp, true, n, k, i).0.dom().contains((a, a)),
        !fw_rows(st, op, cmp, true, n, k, i).1.dom().contains((a, a)),
    decreases i,
{
    if i > 0 {
        lemma_rows_no_self_loop(st, op, cmp, n, k, (i - 1) as nat, a);
        lemma_row_no_self_loop(
            fw_rows(st, op, cmp, true, n, k, (i - 1) as nat),
            op,
            cmp,
            k,
            i - 1,
            n,
            a,
        );
    }
}

proof fn lemma_ks_no_self_loop<F>(
    st: (Map<(int, int), F>, Map<(int, int), usize>),
    op: spec_fn(F, F) -> F,
    cmp: spec_fn(F, F) -> bool,
    n: nat,
    k: nat,
    a: int,
)
    requires
        !st.0.dom().contains((a, a)),
        !st.1.dom().contains((a, a)),
    ensures
        !fw_ks(st, op, cmp, true, n, k).0.dom().contains((a, a)),
        !fw_ks(st, op, cmp, true, n, k).1.dom().contains((a, a)),
    decreases k,
{
    if k > 0 {
        lemma_ks_no_self_loop(st, op, cmp, n, (k - 1) as nat, a);
        lemma_rows_no_self_loop(
            fw_ks(st, op, cmp, true, n, (k - 1) as nat),
            op,
            cmp,
            n,
            k - 1,
            n,
            a,
        );
    }
}

proof fn lemma_row_keeps_recorded<F>(
    st: (Map<(int, int), F>, Map<(int, int), usize>),
    op: spec_fn(F, F) -> F,
    cmp: spec_fn(F, F) -> bool,
    discard_loops: bool,
    k: int,
    i: int,
    j: nat,
    a: int,
    b: int,
)
    requires
        st.0.dom().contains((a, b)),
    ensures
        fw_row(st, op, cmp, discard_loops, k, i, j).0.dom().contains((a, b)),
    decreases j,
{
    if j > 0 {
        lemma_row_keeps_recorded(st, op, cmp, discard_loops, k, i, (j - 1) as nat, a, b);
    }
}

proof fn lemma_rows_keeps_recorded<F>(
    st: (Map<(int, int), F>, Map<(int, int), usize>),
    op: spec_fn(F, F) -> F,
    cmp: spec_fn(F, F) -> bool,
    discard_loops: bool,
    n: nat,
    k: int,
    i: nat,
    a: int,
    b: int,
)
    requires
        st.0.dom().contains((a, b)),
    ensures
        fw_rows(st, op, cmp, discard_loops, n, k, i).0.dom().contains((a, b)),
    decreases i,
{
    if i > 0 {
        lemma_rows_keeps_recorded(st, op, cmp, discard_loops, n, k, (i - 1) as nat, a, b);
        lemma_row_keeps_recorded(
            fw_rows(st, op, cmp, discard_loops, n, k, (i - 1) as nat),
            op,
            cmp,
            discard_loops,
            k,
            i - 1,
            n,
            a,
            b,
        );
    }
}

/// Once a weight is recorded for a pair, it stays recorded to the end of the
/// run: relaxation replaces weights but never removes them.
pub proof fn lemma_run_keeps_recorded<F>(
    st: (Map<(int, int), F>, Map<(int, int), usize>),
    op: spec_fn(F, F) -> F,
    cmp: spec_fn(F, F) -> bool,
    discard_loops: bool,
    n: nat,
    k: nat,
    a: int,
    b: int,
)
    requires
        st.0.dom().contains((a, b)),
    ensures
        fw_ks(st, op, cmp, discard_loops, n, k).0.dom().contains((a, b)),
    decreases k,
{
    if k > 0 {
        lemma_run_keeps_recorded(st, op, cmp, discard_loops, n, (k - 1) as nat, a, b);
        lemma_rows_keeps_recorded(
            fw_ks(st, op, cmp, discard_loops, n, (k - 1) as nat),
            op,
            cmp,
            discard_loops,
            n,
            k - 1,
            n,
            a,
            b,
        );
    }
}

proof fn lemma_row_monotonic<F>(
    st: (Map<(int, int), F>, Map<(int, int), usize>),
    op: spec_fn(F, F) -> F,
    cmp: spec_fn(F, F) -> bool,
    discard_loops: bool,
    k: int,
    i: int,
    j: nat,
    a: int,
    b: int,
)
    requires
        st.0.dom().contains((a, b)),
        forall|x: F, y: F, z: F| #![trigger cmp(x, y), cmp(y, z)]
            cmp(x, y) && cmp(y, z) ==> cmp(x, z),
    ensures
        fw_row(st, op, cmp, discard_loops, k, i, j).0.dom().contains((a, b)),
        fw_row(st, op, cmp, discard_loops, k, i, j).0[(a, b)] == st.0[(a, b)] || cmp(
            fw_row(st, op, cmp, discard_loops, k, i, j).0[(a, b)],
            st.0[(a, b)],
        ),
    decreases j,
{
    if j > 0 {
        lemma_row_monotonic(st, op, cmp, discard_loops, k, i, (j - 1) as nat, a, b);
        lemma_step_monotonic(
            fw_row(st, op, cmp, discard_loops, k, i, (j - 1) as nat),
            op,
            cmp,
            discard_loops,
            k,
            i,
            j - 1,
            a,
            b,
        );
    }
}

proof fn lemma_rows_monotonic<F>(
    st: (Map<(int, int), F>, Map<(int, int), usize>),
    op: spec_fn(F, F) -> F,
    cmp: spec_fn(F, F) -> bool,
    discard_loops: bool,
    n: nat,
    k: int,
    i: nat,
    a: int,
    b: int,
)
    requires
        st.0.dom().contains((a, b)),
        forall|x: F, y: F, z: F| #![trigger cmp(x, y), cmp(y, z)]
            cmp(x, y) && cmp(y, z) ==> cmp(x, z),
    ensures
        fw_rows(st, op, cmp, discard_loops, n, k, i).0.dom().contains((a, b)),
        fw_rows(st, op, cmp, discard_loops, n, k, i).0[(a, b)] == st.0[(a, b)] || cmp(
            fw_rows(st, op, cmp, discard_loops, n, k, i).0[(a, b)],
            st.0[(a, b)],
        ),
    decreases i,
{
    if i > 0 {
        lemma_rows_monotonic(st, op, cmp, discard_loops, n, k, (i - 1) as nat, a, b);
        lemma_row_monotonic(
            fw_rows(st, op, cmp, discard_loops, n, k, (i - 1) as nat),
            op,
            cmp,
            discard_loops,
            k,
            i - 1,
            n,
            a,
            b,
        );
    }
}

/// Monotonic improvement over a whole run: with a transitive comparator,
/// once a weight is recorded for a pair, the weight the run leaves behind
/// either equals it or is accepted over it by the comparator — the recorded
/// weight never regresses.
pub proof fn lemma_run_monotonic<F>(
    st: (Map<(int, int), F>, Map<(int, int), usize>),
    op: spec_fn(F, F) -> F,
    cmp: spec_fn(F, F) -> bool,
    discard_loops: bool,
    n: nat,
    k: nat,
    a: int,
    b: int,
)
    requires
        st.0.dom().contains((a, b)),
        forall|x: F, y: F, z: F| #![trigger cmp(x, y), cmp(y, z)]
            cmp(x, y) && cmp(y, z) ==> cmp(x, z),
    ensures
        fw_ks(st, op, cmp, discard_loops, n, k).0.dom().contains((a, b)),
        fw_ks(st, op, cmp, discard_loops, n, k).0[(a, b)] == st.0[(a, b)] || cmp(
            fw_ks(st, op, cmp, discard_loops, n, k).0[(a, b)],
            st.0[(a, b)],
        ),
    decreases k,
{
    if k > 0 {
        lemma_run_monotonic(st, op, cmp, discard_loops, n, (k - 1) as nat, a, b);
        lemma_rows_monotonic(
            fw_ks(st, op, cmp, discard_loops, n, (k - 1) as nat),
            op,
            cmp,
            discard_loops,
            n,
            k - 1,
            n,
            a,
            b,
        );
    }
}

/// Loop exclusion: when loops are discarded and the input has no direct
/// self-loop on node `a`, the finished run records neither a weight nor a
/// first hop for the pair `(a, a)`.
pub proof fn lemma_loop_exclusion<F>(
    g: Map<(int, int), F>,
    op: spec_fn(F, F) -> F,
    cmp: spec_fn(F, F) -> bool,
    n: nat,
    a: int,
)
    requires
        forall|p: (int, int)| #[trigger]
            g.dom().contains(p) ==> 0 <= p.0 < n && 0 <= p.1 < n,
        !g.dom().contains((a, a)),
    ensures
        !spec_fw(g, op, cmp, true, n).0.dom().contains((a, a)),
        !spec_fw(g, op, cmp, true, n).1.dom().contains((a, a)),
{
    lemma_init_next(g, n);
    lemma_ks_no_self_loop((g, init_next(g, n)), op, cmp, n, n, a);
}

/// Determinism: two runs on identical graphs with identical configurations
/// produce identical `path` and `next` states.
pub proof fn lemma_determinism<F>(
    g: Map<(int, int), F>,
    op: spec_fn(F, F) -> F,
    cmp: spec_fn(F, F) -> bool,
    discard_loops: bool,
    n: nat,
    r1: (Map<(int, int), F>, Map<(int, int), usize>),
    r2: (Map<(int, int), F>, Map<(int, int), usize>),
)
    requires
        r1 == spec_fw(g, op, cmp, discard_loops, n),
        r2 == spec_fw(g, op, cmp, discard_loops, n),
    ensures
        r1 == r2,
{
}

/// An empty input graph yields an empty result: no pair has a weight or a
/// first hop, so every query answers "no path".
pub proof fn lemma_empty_graph<F>(
    op: spec_fn(F, F) -> F,
    cmp: spec_fn(F, F) -> bool,
    discard_loops: bool,
)
    ensures
        spec_fw(Map::<(int, int), F>::empty(), op, cmp, discard_loops, 0) == (
            Map::<(int, int), F>::empty(),
            Map::<(int, int), usize>::empty(),
        ),
{
}

/// Are the three given nodes pairwise distinct (no duplicates present)?
fn distinct(k: usize, i: usize, j: usize) -> (r: bool)
    ensures
        r == spec_distinct(k as int, i as int, j as int),
{
    k != i && k != j && i != j
}

impl<F: Copy, Op: Combiner<F>, Cmp: Comparator<F>> FloydWarshall<F, Op, Cmp> {
    /// The engine is fit to run: its operator and comparator are total and
    /// deterministic.
    pub open spec fn wf(&self) -> bool {
        self.op.wf() && self.cmp.wf()
    }

    /// The mathematical combination the engine's operator computes.
    pub open spec fn op_fn(&self) -> spec_fn(F, F) -> F {
        |x: F, y: F| self.op.spec_combine(x, y)
    }

    /// The mathematical acceptance predicate the engine's comparator decides.
    pub open spec fn cmp_fn(&self) -> spec_fn(F, F) -> bool {
        |x: F, y: F| self.cmp.spec_accepts(x, y)
    }

    /// Find all the shortest paths (or best rated paths based on the
    /// algorithm's customized settings).
    ///
    /// The result holds both:
    /// - best rates for all possible paths
    /// - the next node on the best rated (shortest) path for each possible
    ///   path
    ///
    /// The caller's graph is never mutated: the engine works on a private
    /// clone. The result is exactly the state that `spec_fw` describes: the
    /// dynamic-programming closure of the input, with `k` outermost and every
    /// triple visited exactly once.
    pub fn find_paths(&self, graph: &Graph<F>) -> (r: FloydWarshallResult<F>)
        requires
            self.wf(),
            graph.wf(),
        ensures
            r.wf(),
            r.path.node_count_spec() == graph.node_count_spec(),
            r.next.node_count_spec() == graph.node_count_spec(),
            (r.path.edge_map(), r.next.edge_map()) == spec_fw(
                graph.edge_map(),
                self.op_fn(),
                self.cmp_fn(),
                self.discard_loops,
                graph.node_count_spec(),
            ),
    {
        let ghost g = graph.edge_map();
        let ghost opf = self.op_fn();
        let ghost cmpf = self.cmp_fn();
        let ghost d = self.discard_loops;
        let n = graph.node_count();

        proof {
            graph.lemma_edges_in_range();
            lemma_init_next(g, n as nat);
        }

        let mut path = graph.duplicate();
        let mut next: Graph<usize> = Graph::new(n);

        // Initialize next steps of each edge existing in `graph` with its end
        // node.
        let ghost nx0 = Map::<(int, int), usize>::empty();
        let mut a: usize = 0;
        while a < n
            invariant
                a <= n,
                graph.wf(),
                n == graph.node_count_spec(),
                g == graph.edge_map(),
                next.wf(),
                next.node_count_spec() == n,
                next.edge_map() == init_next_rows(g, nx0, n as nat, a as nat),
            decreases n - a,
        {
            let ghost base_a = init_next_rows(g, nx0, n as nat, a as nat);
            let mut b: usize = 0;
            while b < n
                invariant
                    b <= n,
                    a < n,
                    graph.wf(),
                    n == graph.node_count_spec(),
                    g == graph.edge_map(),
                    next.wf(),
                    next.node_count_spec() == n,
                    next.edge_map() == init_next_row(g, base_a, a as int, b as nat),
                decreases n - b,
            {
                if graph.edge_weight(a, b).is_some() {
                    next.add_edge(a, b, b);
                }
                proof {
                    assert(init_next_row(g, base_a, a as int, (b + 1) as nat) == init_next_at(
                        g,
                        init_next_row(g, base_a, a as int, b as nat),
                        a as int,
                        b as int,
                    ));
                }
                b = b + 1;
            }
            proof {
                assert(init_next_rows(g, nx0, n as nat, (a + 1) as nat) == init_next_row(
                    g,
                    init_next_rows(g, nx0, n as nat, a as nat),
                    a as int,
                    n as nat,
                ));
            }
            a = a + 1;
        }

        let ghost st0 = (g, init_next(g, n as nat));
        proof {
            assert(path.edge_map().dom() == next.edge_map().dom());
        }

        // `k` is the "intermediate" node which is currently considered.
        let mut k: usize = 0;
        while k < n
            invariant
                k <= n,
                graph.wf(),
                n == graph.node_count_spec(),
                g == graph.edge_map(),
                self.wf(),
                opf == self.op_fn(),
                cmpf == self.cmp_fn(),
                d == self.discard_loops,
                st0 == (g, init_next(g, n as nat)),
                path.wf(),
                path.node_count_spec() == n,
                next.wf(),
                next.node_count_spec() == n,
                path.edge_map().dom() == next.edge_map().dom(),
                (path.edge_map(), next.edge_map()) == fw_ks(st0, opf, cmpf, d, n as nat, k as nat),
            decreases n - k,
        {
            let ghost base_k = fw_ks(st0, opf, cmpf, d, n as nat, k as nat);
            // `i` is a starting node of the path we try to optimize.
            let mut i: usize = 0;
            while i < n
                invariant
                    i <= n,
                    k < n,
                    graph.wf(),
                    n == graph.node_count_spec(),
                    g == graph.edge_map(),
                    self.wf(),
                    opf == self.op_fn(),
                    cmpf == self.cmp_fn(),
                    d == self.discard_loops,
                    path.wf(),
                    path.node_count_spec() == n,
                    next.wf(),
                    next.node_count_spec() == n,
                    path.edge_map().dom() == next.edge_map().dom(),
                    (path.edge_map(), next.edge_map()) == fw_rows(
                        base_k,
                        opf,
                        cmpf,
                        d,
                        n as nat,
                        k as int,
                        i as nat,
                    ),
                decreases n - i,
            {
                let ghost base_i = fw_rows(base_k, opf, cmpf, d, n as nat, k as int, i as nat);
                // `j` is an end node of the path we try to optimize.
                let mut j: usize = 0;
                while j < n
                    invariant
                        j <= n,
                        i < n,
                        k < n,
                        graph.wf(),
                        n == graph.node_count_spec(),
                        g == graph.edge_map(),
                        self.wf(),
                        opf == self.op_fn(),
                        cmpf == self.cmp_fn(),
                        d == self.discard_loops,
                        path.wf(),
                        path.node_count_spec() == n,
                        next.wf(),
                        next.node_count_spec() == n,
                        path.edge_map().dom() == next.edge_map().dom(),
                        (path.edge_map(), next.edge_map()) == fw_row(
                            base_i,
                            opf,
                            cmpf,
                            d,
                            k as int,
                            i as int,
                            j as nat,
                        ),
                    decreases n - j,
                {
                    let ghost pre = (path.edge_map(), next.edge_map());
                    // Skip calculation for loops if requested.
                    if !(self.discard_loops && !distinct(k, i, j)) {
                        // Calculation of a new weight of the path from `i` to
                        // `j` through `k`.
                        let left_operand = path.edge_weight(i, k);
                        let right_operand = path.edge_weight(k, j);
                        // There's nothing to calculate if the left `(i, k)`
                        // or right `(k, j)` path misses.
                        if left_operand.is_some() && right_operand.is_some() {
                            // Use the weight operator. It can be customized.
                            let new_weight = self.op.combine(
                                left_operand.unwrap(),
                                right_operand.unwrap(),
                            );
                            proof {
                                assert(opf(pre.0[(i as int, k as int)], pre.0[(k as int, j as int)])
                                    == self.op.spec_combine(
                                    pre.0[(i as int, k as int)],
                                    pre.0[(k as int, j as int)],
                                ));
                            }
                            // Use the comparison. It can be customized.
                            let accept = match path.edge_weight(i, j) {
                                Option::None => true,
                                Option::Some(old_weight) => self.cmp.accepts(
                                    new_weight,
                                    old_weight,
                                ),
                            };
                            proof {
                                assert(cmpf(new_weight, pre.0[(i as int, j as int)])
                                    == self.cmp.spec_accepts(
                                    new_weight,
                                    pre.0[(i as int, j as int)],
                                ));
                            }
                            if accept {
                                // The algorithm invariants guarantee the edge
                                // exists.
                                let direction = next.edge_weight(i, k).unwrap();
                                path.add_edge(i, j, new_weight);
                                next.add_edge(i, j, direction);
                            }
                        }
                    }
                    proof {
                        assert((path.edge_map(), next.edge_map()) == fw_step(
                            pre,
                            opf,
                            cmpf,
                            d,
                            k as int,
                            i as int,
                            j as int,
                        ));
                        assert(fw_row(base_i, opf, cmpf, d, k as int, i as int, (j + 1) as nat)
                            == fw_step(
                            fw_row(base_i, opf, cmpf, d, k as int, i as int, j as nat),
                            opf,
                            cmpf,
                            d,
                            k as int,
                            i as int,
                            j as int,
                        ));
                        assert(path.edge_map().dom() =~= next.edge_map().dom());
                    }
                    j = j + 1;
                }
                proof {
                    assert(fw_rows(base_k, opf, cmpf, d, n as nat, k as int, (i + 1) as nat)
                        == fw_row(
                        fw_rows(base_k, opf, cmpf, d, n as nat, k as int, i as nat),
                        opf,
                        cmpf,
                        d,
                        k as int,
                        i as int,
                        n as nat,
                    ));
                }
                i = i + 1;
            }
            proof {
                assert(fw_ks(st0, opf, cmpf, d, n as nat, (k + 1) as nat) == fw_rows(
                    fw_ks(st0, opf, cmpf, d, n as nat, k as nat),
                    opf,
                    cmpf,
                    d,
                    n as nat,
                    k as int,
                    n as nat,
                ));
            }
            k = k + 1;
        }

        FloydWarshallResult::new(path, next)
    }
}

} // verus!
