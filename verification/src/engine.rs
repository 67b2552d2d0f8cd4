//! The reactive engine: observable cells, dependency-tracked computations,
//! and a batching scheduler.
//!
//! Cells and computations live in two arenas and refer to each other only by
//! index, never by direct ownership. A computation is either an *effect*
//! (it records the value its body produces on every run) or a *derived*
//! computation (it caches the value, and is itself readable as a source).
//!
//! Writes mark the subscribers of the written cell dirty; [`Engine::flush`]
//! then re-runs every dirty, still-live computation exactly once, in
//! creation order. Because a body may only read sources created before its
//! own computation, creation order is a topological order of the dependency
//! graph, so every computation observes the post-update values of everything
//! it depends on (glitch freedom).

use vstd::prelude::*;

use crate::expr::{Expr, SourceId, expr_refs, expr_size};

verus! {

/// Whether the source vector `v` holds `s`.
fn contains_src(v: &Vec<SourceId>, s: SourceId) -> (r: bool)
    ensures
        r == v@.contains(s),
{
    let mut k: usize = 0;
    while k < v.len()
        invariant
            k <= v@.len(),
            forall|m: int| 0 <= m < k ==> v@[m] != s,
        decreases v@.len() - k,
    {
        if v[k] == s {
            return true;
        }
        k = k + 1;
    }
    false
}

/// Removes the one occurrence of `c` from a duplicate-free subscriber list,
/// if present.
fn remove_sub(v: &mut Vec<usize>, c: usize)
    requires
        Engine::nodup(old(v)@),
    ensures
        Engine::nodup(final(v)@),
        final(v)@.to_set() == old(v)@.to_set().remove(c),
        forall|x: usize| x != c ==> (final(v)@.contains(x) <==> old(v)@.contains(x)),
        !final(v)@.contains(c),
{
    let mut k: usize = 0;
    while k < v.len()
        invariant
            k <= v@.len(),
            v@ == old(v)@,
            Engine::nodup(v@),
            forall|m: int| 0 <= m < k ==> v@[m] != c,
        decreases v@.len() - k,
    {
        if v[k] == c {
            v.swap_remove(k);
            proof {
                assert forall|x: usize| #[trigger] v@.contains(x)
                    implies x != c && old(v)@.contains(x) by {
                    let m = choose|m: int| 0 <= m < v@.len() && v@[m] == x;
                    if m < k {
                        assert(old(v)@[m] == x);
                    } else {
                        assert(old(v)@.last() == x || old(v)@[m] == x);
                    }
                }
                assert forall|x: usize| x != c && old(v)@.contains(x)
                    implies v@.contains(x) by {
                    let m = choose|m: int| 0 <= m < old(v)@.len() && old(v)@[m] == x;
                    if m == old(v)@.len() - 1 {
                        if k < v@.len() {
                            assert(v@[k as int] == x);
                        }
                    } else if m != k {
                        assert(v@[m] == x);
                    }
                }
                assert(Engine::nodup(v@));
                assert(v@.to_set() =~= old(v)@.to_set().remove(c));
            }
            return;
        }
        k = k + 1;
    }
    proof {
        assert(!v@.contains(c));
        assert(v@.to_set() =~= old(v)@.to_set().remove(c));
    }
}

/// Why an engine operation was refused.
#[derive(Clone, Copy, PartialEq, Eq, Structural, Debug)]
pub enum EngineError {
    /// An operation named a cell or computation outside any valid scope:
    /// an unknown id, a computation of the wrong kind, or one already
    /// disposed.
    TrackingViolation,
    /// The computation's most recent run failed, so it has no current value.
    ComputationFailure,
}

/// An observable, mutable unit of state.
pub struct CellState {
    /// The current value.
    pub value: i64,
    /// Increments on every write.
    pub version: u64,
    /// Computations subscribed to this cell (no duplicates).
    pub subs: Vec<usize>,
}

/// What a computation does with the value its body produces.
pub enum CompKind {
    /// Runs for its side effect: every successful run appends the produced
    /// value to this log.
    Effect { log: Vec<i64> },
    /// Produces a value that other computations can read; the last
    /// successfully produced value is cached here.
    Derived { cache: i64 },
}

/// A unit of reactive work: an effect or a derived computation.
pub struct Comp {
    /// The body, fixed at creation.
    pub body: Expr,
    /// Effect or derived, with the run results.
    pub kind: CompKind,
    /// The sources read during the most recent successful run
    /// (no duplicates).
    pub deps: Vec<SourceId>,
    /// Computations subscribed to this computation (meaningful when this
    /// computation is derived; no duplicates).
    pub subs: Vec<usize>,
    /// Needs to re-run in the next flush.
    pub dirty: bool,
    /// The most recent run failed (arithmetic overflow, or a read of a
    /// disposed or failed source).
    pub failed: bool,
    /// Disposed: it will never run again.
    pub disposed: bool,
}

/// The reactive engine: an arena of cells and an arena of computations.
pub struct Engine {
    /// The cells, indexed by the id `create_cell` returned.
    pub cells: Vec<CellState>,
    /// The computations, indexed by the id `create_effect` or
    /// `create_derived` returned.
    pub comps: Vec<Comp>,
}

impl Engine {
    /// Number of cells.
    pub open spec fn n_cells(self) -> int {
        self.cells@.len() as int
    }

    /// Number of computations.
    pub open spec fn n_comps(self) -> int {
        self.comps@.len() as int
    }

    /// Current value of cell `i`.
    pub open spec fn cell_value(self, i: int) -> i64 {
        self.cells@[i].value
    }

    /// Current version of cell `i`.
    pub open spec fn cell_version(self, i: int) -> u64 {
        self.cells@[i].version
    }

    /// The computation `c` is a derived computation.
    pub open spec fn is_derived(self, c: int) -> bool {
        self.comps@[c].kind is Derived
    }

    /// The computation `c` is an effect.
    pub open spec fn is_effect(self, c: int) -> bool {
        self.comps@[c].kind is Effect
    }

    /// The cached value of derived computation `c`.
    pub open spec fn cache_of(self, c: int) -> i64 {
        match self.comps@[c].kind {
            CompKind::Derived { cache } => cache,
            CompKind::Effect { .. } => 0,
        }
    }

    /// The log of values effect `c` has recorded, oldest first.
    pub open spec fn log_of(self, c: int) -> Seq<i64> {
        match self.comps@[c].kind {
            CompKind::Effect { log } => log@,
            CompKind::Derived { .. } => Seq::empty(),
        }
    }

    /// The dependency set of computation `c`: the sources it read during its
    /// most recent successful run.
    pub open spec fn deps_of(self, c: int) -> Set<SourceId> {
        self.comps@[c].deps@.to_set()
    }

    /// The subscribers of source `s`, as a set of computation ids.
    pub open spec fn subs_of(self, s: SourceId) -> Set<usize> {
        match s {
            SourceId::Cell(i) => self.cells@[i as int].subs@.to_set(),
            SourceId::Comp(j) => self.comps@[j as int].subs@.to_set(),
        }
    }

    /// `s` names an existing, readable source.
    pub open spec fn src_valid(self, s: SourceId) -> bool {
        match s {
            SourceId::Cell(i) => i < self.n_cells(),
            SourceId::Comp(j) => j < self.n_comps() && self.is_derived(j as int),
        }
    }

    /// Every source the body `e` can read exists, and every derived
    /// computation it can read was created before computation `bound`.
    /// This makes creation order a topological order of the graph.
    pub open spec fn body_ok(self, e: Expr, bound: int) -> bool
        decreases e,
    {
        match e {
            Expr::Const(_) => true,
            Expr::Read(s) => self.src_valid(s) && (s matches SourceId::Comp(j) ==> j < bound),
            Expr::Plus(a, b) => self.body_ok(*a, bound) && self.body_ok(*b, bound),
            Expr::If(c, t, f) => self.body_ok(*c, bound) && self.body_ok(*t, bound)
                && self.body_ok(*f, bound),
        }
    }

    /// A sequence of indices has no duplicates.
    pub open spec fn nodup<A>(s: Seq<A>) -> bool {
        forall|k1: int, k2: int| 0 <= k1 < k2 < s.len() ==> s[k1] != s[k2]
    }

    /// Structural well-formedness: bodies and dependency records only name
    /// existing sources created before their owner; subscriber lists and
    /// dependency lists have no duplicates; and subscriptions are exactly
    /// the reverse edges of the dependency records (no computation retains
    /// a subscription to a source it does not depend on, and none is
    /// missing one it does).
    pub open spec fn wf(self) -> bool {
        &&& forall|c: int| 0 <= c < self.n_comps()
            ==> self.body_ok(#[trigger] self.comps@[c].body, c)
        &&& forall|c: int| 0 <= c < self.n_comps()
            ==> Self::nodup(#[trigger] self.comps@[c].deps@)
        &&& forall|c: int, s: SourceId| 0 <= c < self.n_comps()
            && #[trigger] self.deps_of(c).contains(s)
            ==> self.src_valid(s) && (s matches SourceId::Comp(j) ==> j < c)
        &&& forall|i: int| 0 <= i < self.n_cells()
            ==> Self::nodup(#[trigger] self.cells@[i].subs@)
        &&& forall|c: int| 0 <= c < self.n_comps()
            ==> Self::nodup(#[trigger] self.comps@[c].subs@)
        &&& forall|i: int, k: usize| 0 <= i < self.n_cells()
            && #[trigger] self.cells@[i].subs@.contains(k)
            ==> k < self.n_comps()
        &&& forall|j: int, k: usize| 0 <= j < self.n_comps()
            && #[trigger] self.comps@[j].subs@.contains(k)
            ==> k < self.n_comps()
        &&& forall|i: int, k: usize|
            #![trigger self.cells@[i].subs@.contains(k)]
            #![trigger self.deps_of(k as int).contains(SourceId::Cell(i as usize))]
            0 <= i < self.n_cells() && k < self.n_comps()
            ==> (self.cells@[i].subs@.contains(k)
                <==> self.deps_of(k as int).contains(SourceId::Cell(i as usize)))
        &&& forall|j: int, k: usize|
            #![trigger self.comps@[j].subs@.contains(k)]
            #![trigger self.deps_of(k as int).contains(SourceId::Comp(j as usize))]
            0 <= j < self.n_comps() && k < self.n_comps()
            ==> (self.comps@[j].subs@.contains(k)
                <==> self.deps_of(k as int).contains(SourceId::Comp(j as usize)))
    }

    /// One write as [`Engine::write_cell`] performs it: cell `i` takes the
    /// value `v` and the next version, its subscribers are marked dirty, and
    /// nothing else moves.
    pub open spec fn written(pre: Engine, post: Engine, i: int, v: i64) -> bool {
        &&& 0 <= i < pre.n_cells()
        &&& post.cells@ == pre.cells@.update(
            i,
            CellState {
                value: v,
                version: (pre.cell_version(i) + 1) as u64,
                subs: pre.cells@[i].subs,
            },
        )
        &&& post.n_comps() == pre.n_comps()
        &&& forall|c: int| 0 <= c < pre.n_comps()
            ==> #[trigger] post.comps@[c].body == pre.comps@[c].body
                && post.comps@[c].kind == pre.comps@[c].kind
                && post.comps@[c].deps == pre.comps@[c].deps
                && post.comps@[c].subs == pre.comps@[c].subs
                && post.comps@[c].failed == pre.comps@[c].failed
                && post.comps@[c].disposed == pre.comps@[c].disposed
        &&& forall|c: usize| (c as int) < pre.n_comps()
            ==> #[trigger] post.comps@[c as int].dirty == (pre.comps@[c as int].dirty
                || pre.cells@[i].subs@.contains(c))
    }

    /// A body stays well formed when the engine only gains cells and
    /// computations.
    pub proof fn lemma_body_ok_grow(self, e: Expr, bound: int, g2: Engine)
        requires
            self.body_ok(e, bound),
            self.n_cells() <= g2.n_cells(),
            self.n_comps() <= g2.n_comps(),
            forall|j: int| 0 <= j < self.n_comps()
                ==> (#[trigger] g2.is_derived(j) <==> self.is_derived(j)),
        ensures
            g2.body_ok(e, bound),
        decreases e,
    {
        match e {
            Expr::Const(_) => {},
            Expr::Read(_) => {},
            Expr::Plus(a, b) => {
                self.lemma_body_ok_grow(*a, bound, g2);
                self.lemma_body_ok_grow(*b, bound, g2);
            },
            Expr::If(c, t, f) => {
                self.lemma_body_ok_grow(*c, bound, g2);
                self.lemma_body_ok_grow(*t, bound, g2);
                self.lemma_body_ok_grow(*f, bound, g2);
            },
        }
    }

    /// Well-formedness only speaks of the graph: values, versions, dirty
    /// and failure marks, caches and logs may differ freely.
    pub proof fn lemma_wf_same_graph(self, g2: Engine)
        requires
            self.wf(),
            g2.n_cells() == self.n_cells(),
            g2.n_comps() == self.n_comps(),
            forall|i: int| 0 <= i < self.n_cells()
                ==> #[trigger] g2.cells@[i].subs == self.cells@[i].subs,
            forall|c: int| 0 <= c < self.n_comps()
                ==> #[trigger] g2.comps@[c].body == self.comps@[c].body,
            forall|c: int| 0 <= c < self.n_comps()
                ==> #[trigger] g2.comps@[c].deps == self.comps@[c].deps,
            forall|c: int| 0 <= c < self.n_comps()
                ==> #[trigger] g2.comps@[c].subs == self.comps@[c].subs,
            forall|c: int| 0 <= c < self.n_comps()
                ==> (#[trigger] g2.is_derived(c) <==> self.is_derived(c)),
        ensures
            g2.wf(),
    {
        assert forall|c: int| 0 <= c < g2.n_comps()
            implies g2.body_ok(#[trigger] g2.comps@[c].body, c) by {
            assert(self.body_ok(self.comps@[c].body, c));
            self.lemma_body_ok_grow(self.comps@[c].body, c, g2);
        }
        assert forall|c: int, s: SourceId| 0 <= c < g2.n_comps()
            && #[trigger] g2.deps_of(c).contains(s)
            implies g2.src_valid(s) && (s matches SourceId::Comp(j) ==> j < c) by {
            assert(g2.comps@[c].deps == self.comps@[c].deps);
            assert(self.deps_of(c).contains(s));
        }
        assert forall|c: int| 0 <= c < g2.n_comps()
            implies Engine::nodup(#[trigger] g2.comps@[c].deps@) by {
            assert(g2.comps@[c].deps == self.comps@[c].deps);
        }
        assert forall|i: int| 0 <= i < g2.n_cells()
            implies Engine::nodup(#[trigger] g2.cells@[i].subs@) by {
            assert(g2.cells@[i].subs == self.cells@[i].subs);
        }
        assert forall|c: int| 0 <= c < g2.n_comps()
            implies Engine::nodup(#[trigger] g2.comps@[c].subs@) by {
            assert(g2.comps@[c].subs == self.comps@[c].subs);
        }
        assert forall|i: int, k: usize| 0 <= i < g2.n_cells()
            && #[trigger] g2.cells@[i].subs@.contains(k)
            implies k < g2.n_comps() by {
            assert(self.cells@[i].subs@.contains(k));
        }
        assert forall|j: int, k: usize| 0 <= j < g2.n_comps()
            && #[trigger] g2.comps@[j].subs@.contains(k)
            implies k < g2.n_comps() by {
            assert(self.comps@[j].subs@.contains(k));
        }
        assert forall|i: int, k: usize| 0 <= i < g2.n_cells() && k < g2.n_comps()
            implies (#[trigger] g2.cells@[i].subs@.contains(k)
                <==> #[trigger] g2.deps_of(k as int).contains(SourceId::Cell(i as usize))) by {
            assert(g2.cells@[i].subs == self.cells@[i].subs);
            assert(g2.comps@[k as int].deps == self.comps@[k as int].deps);
            assert(self.cells@[i].subs@.contains(k)
                <==> self.deps_of(k as int).contains(SourceId::Cell(i as usize)));
        }
        assert forall|j: int, k: usize| 0 <= j < g2.n_comps() && k < g2.n_comps()
            implies (#[trigger] g2.comps@[j].subs@.contains(k)
                <==> #[trigger] g2.deps_of(k as int).contains(SourceId::Comp(j as usize))) by {
            assert(g2.comps@[j].subs == self.comps@[j].subs);
            assert(g2.comps@[k as int].deps == self.comps@[k as int].deps);
            assert(self.comps@[j].subs@.contains(k)
                <==> self.deps_of(k as int).contains(SourceId::Comp(j as usize)));
        }
    }

    /// A well-formed body only ever reads valid sources, each created
    /// before `bound`.
    pub proof fn lemma_body_ok_refs(self, e: Expr, bound: int)
        requires
            self.body_ok(e, bound),
        ensures
            forall|s: SourceId| expr_refs(e).contains(s)
                ==> self.src_valid(s) && (s matches SourceId::Comp(j) ==> j < bound),
        decreases e,
    {
        match e {
            Expr::Const(_) => {},
            Expr::Read(_) => {},
            Expr::Plus(a, b) => {
                self.lemma_body_ok_refs(*a, bound);
                self.lemma_body_ok_refs(*b, bound);
            },
            Expr::If(c, t, f) => {
                self.lemma_body_ok_refs(*c, bound);
                self.lemma_body_ok_refs(*t, bound);
                self.lemma_body_ok_refs(*f, bound);
            },
        }
    }

    /// Value a read of source `s` observes right now: a cell's current
    /// value, or a derived computation's cache. Reading a disposed or
    /// failed derived computation fails.
    pub open spec fn read_now(self, s: SourceId) -> Option<i64> {
        match s {
            SourceId::Cell(i) => Some(self.cells@[i as int].value),
            SourceId::Comp(j) => if self.comps@[j as int].disposed || self.comps@[j as int].failed {
                None
            } else {
                Some(self.cache_of(j as int))
            },
        }
    }

    /// Evaluation of a body against the engine's current state. `None`
    /// means the run fails: an addition overflowed, or a read failed.
    pub open spec fn eval_now(self, e: Expr) -> Option<i64>
        decreases e,
    {
        match e {
            Expr::Const(n) => Some(n),
            Expr::Read(s) => self.read_now(s),
            Expr::Plus(a, b) => match (self.eval_now(*a), self.eval_now(*b)) {
                (Some(x), Some(y)) => if i64::MIN <= x + y <= i64::MAX {
                    Some((x + y) as i64)
                } else {
                    None
                },
                _ => None,
            },
            Expr::If(c, t, f) => match self.eval_now(*c) {
                Some(v) => if v != 0 {
                    self.eval_now(*t)
                } else {
                    self.eval_now(*f)
                },
                None => None,
            },
        }
    }

    /// A fresh engine, with no cells and no computations.
    pub fn new() -> (r: Engine)
        ensures
            r.wf(),
            r.n_cells() == 0,
            r.n_comps() == 0,
    {
        Engine { cells: Vec::new(), comps: Vec::new() }
    }

    /// Creates a cell holding `init` and returns its id.
    pub fn create_cell(&mut self, init: i64) -> (id: usize)
        requires
            old(self).wf(),
        ensures
            final(self).wf(),
            id == old(self).n_cells(),
            final(self).n_cells() == old(self).n_cells() + 1,
            final(self).comps@ == old(self).comps@,
            forall|i: int| 0 <= i < old(self).n_cells()
                ==> #[trigger] final(self).cells@[i] == old(self).cells@[i],
            final(self).cell_value(id as int) == init,
            final(self).cell_version(id as int) == 0,
            final(self).subs_of(SourceId::Cell(id)) == Set::<usize>::empty(),
    {
        let id = self.cells.len();
        self.cells.push(CellState { value: init, version: 0, subs: Vec::new() });
        proof {
            let g1 = *old(self);
            let g2 = *self;
            assert(g2.cells@[id as int].subs@.to_set() =~= Set::<usize>::empty());
            assert forall|c: int| 0 <= c < g2.n_comps()
                implies g2.body_ok(#[trigger] g2.comps@[c].body, c) by {
                assert(g1.body_ok(g1.comps@[c].body, c));
                g1.lemma_body_ok_grow(g1.comps@[c].body, c, g2);
            }
            assert forall|i: int, k: usize| 0 <= i < g2.n_cells() && k < g2.n_comps()
                implies (#[trigger] g2.cells@[i].subs@.contains(k)
                    <==> #[trigger] g2.deps_of(k as int).contains(
                        SourceId::Cell(i as usize))) by {
                if i < g1.n_cells() {
                    assert(g2.cells@[i] == g1.cells@[i]);
                    assert(g1.cells@[i].subs@.contains(k)
                        <==> g1.deps_of(k as int).contains(SourceId::Cell(i as usize)));
                } else {
                    assert(g2.cells@[i].subs@.len() == 0);
                    if g2.deps_of(k as int).contains(SourceId::Cell(i as usize)) {
                        assert(g1.deps_of(k as int).contains(SourceId::Cell(i as usize)));
                        assert(g1.src_valid(SourceId::Cell(i as usize)));
                        assert(false);
                    }
                }
            }
            assert forall|c: int, s: SourceId| 0 <= c < g2.n_comps()
                && #[trigger] g2.deps_of(c).contains(s)
                implies g2.src_valid(s) && (s matches SourceId::Comp(j) ==> j < c) by {
                assert(g1.deps_of(c).contains(s));
            }
            assert forall|c: int| 0 <= c < g2.n_comps()
                implies Engine::nodup(#[trigger] g2.comps@[c].deps@) by {
                assert(Engine::nodup(g1.comps@[c].deps@));
            }
            assert forall|i: int| 0 <= i < g2.n_cells()
                implies Engine::nodup(#[trigger] g2.cells@[i].subs@) by {
                if i < g1.n_cells() {
                    assert(g2.cells@[i] == g1.cells@[i]);
                    assert(Engine::nodup(g1.cells@[i].subs@));
                }
            }
            assert forall|c: int| 0 <= c < g2.n_comps()
                implies Engine::nodup(#[trigger] g2.comps@[c].subs@) by {
                assert(Engine::nodup(g1.comps@[c].subs@));
            }
            assert forall|i: int, k: usize| 0 <= i < g2.n_cells()
                && #[trigger] g2.cells@[i].subs@.contains(k)
                implies k < g2.n_comps() by {
                if i < g1.n_cells() {
                    assert(g2.cells@[i] == g1.cells@[i]);
                    assert(g1.cells@[i].subs@.contains(k));
                }
            }
            assert forall|j: int, k: usize| 0 <= j < g2.n_comps()
                && #[trigger] g2.comps@[j].subs@.contains(k)
                implies k < g2.n_comps() by {
                assert(g1.comps@[j].subs@.contains(k));
            }
            assert forall|j: int, k: usize| 0 <= j < g2.n_comps() && k < g2.n_comps()
                implies (#[trigger] g2.comps@[j].subs@.contains(k)
                    <==> #[trigger] g2.deps_of(k as int).contains(
                        SourceId::Comp(j as usize))) by {
                assert(g1.comps@[j].subs@.contains(k)
                    <==> g1.deps_of(k as int).contains(SourceId::Comp(j as usize)));
            }
            assert(g2.wf());
        }
        id
    }

    /// Reads cell `i` without tracking. Succeeds exactly when the cell
    /// exists.
    pub fn read_cell(&self, i: usize) -> (r: Result<i64, EngineError>)
        ensures
            (i as int) < self.n_cells() ==> r == Ok::<i64, EngineError>(self.cell_value(i as int)),
            (i as int) >= self.n_cells() ==> r == Err::<i64, EngineError>(
                EngineError::TrackingViolation),
    {
        if i < self.cells.len() {
            Ok(self.cells[i].value)
        } else {
            Err(EngineError::TrackingViolation)
        }
    }

    /// The version of cell `i`: how many times it has been written.
    pub fn version_of(&self, i: usize) -> (r: Result<u64, EngineError>)
        ensures
            (i as int) < self.n_cells() ==> r == Ok::<u64, EngineError>(
                self.cell_version(i as int)),
            (i as int) >= self.n_cells() ==> r == Err::<u64, EngineError>(
                EngineError::TrackingViolation),
    {
        if i < self.cells.len() {
            Ok(self.cells[i].version)
        } else {
            Err(EngineError::TrackingViolation)
        }
    }

    /// Writes `v` to cell `i`: the value is replaced, the version
    /// increments, and every subscriber of the cell is marked dirty, to be
    /// re-run by the next flush. Succeeds exactly when the cell exists.
    /// Propagation itself waits for [`Engine::flush`], so several writes
    /// coalesce into one batch.
    pub fn write_cell(&mut self, i: usize, v: i64) -> (r: Result<(), EngineError>)
        requires
            old(self).wf(),
            (i as int) < old(self).n_cells() ==> old(self).cell_version(i as int) < u64::MAX,
        ensures
            final(self).wf(),
            (i as int) < old(self).n_cells() ==> r == Ok::<(), EngineError>(())
                && Engine::written(*old(self), *final(self), i as int, v),
            (i as int) >= old(self).n_cells() ==> r == Err::<(), EngineError>(
                EngineError::TrackingViolation) && *final(self) == *old(self),
    {
        if i >= self.cells.len() {
            return Err(EngineError::TrackingViolation);
        }
        self.cells[i].value = v;
        self.cells[i].version = self.cells[i].version + 1;
        let ghost mid = *self;
        proof {
            assert(mid.cells@ =~= old(self).cells@.update(
                i as int,
                CellState {
                    value: v,
                    version: (old(self).cell_version(i as int) + 1) as u64,
                    subs: old(self).cells@[i as int].subs,
                },
            ));
        }
        let mut k: usize = 0;
        let n_subs = self.cells[i].subs.len();
        while k < n_subs
            invariant
                old(self).wf(),
                n_subs == mid.cells@[i as int].subs@.len(),
                0 <= (i as int) < mid.n_cells(),
                k <= n_subs,
                self.cells@ == mid.cells@,
                mid.cells@[i as int].subs == old(self).cells@[i as int].subs,
                mid.n_cells() == old(self).n_cells(),
                mid.n_comps() == old(self).n_comps(),
                mid.comps@ == old(self).comps@,
                self.n_comps() == mid.n_comps(),
                forall|c: int| 0 <= c < self.n_comps()
                    ==> #[trigger] self.comps@[c].body == mid.comps@[c].body
                        && self.comps@[c].kind == mid.comps@[c].kind
                        && self.comps@[c].deps == mid.comps@[c].deps
                        && self.comps@[c].subs == mid.comps@[c].subs
                        && self.comps@[c].failed == mid.comps@[c].failed
                        && self.comps@[c].disposed == mid.comps@[c].disposed,
                forall|c: usize| (c as int) < self.n_comps()
                    ==> #[trigger] self.comps@[c as int].dirty == (mid.comps@[c as int].dirty
                        || exists|m: int| 0 <= m < k
                            && mid.cells@[i as int].subs@[m] == c),
            decreases n_subs - k,
        {
            let ghost pre_iter = *self;
            let c = self.cells[i].subs[k];
            proof {
                assert(old(self).cells@[i as int].subs@.contains(c));
                assert(c < old(self).n_comps());
            }
            self.comps[c].dirty = true;
            proof {
                assert forall|c2: usize| (c2 as int) < self.n_comps()
                    implies #[trigger] self.comps@[c2 as int].dirty == (
                        mid.comps@[c2 as int].dirty || exists|m: int| 0 <= m < k + 1
                            && mid.cells@[i as int].subs@[m] == c2) by {
                    if c2 == c {
                        assert(mid.cells@[i as int].subs@[k as int] == c2);
                        assert(self.comps@[c2 as int].dirty);
                    } else {
                        assert(self.comps@[c2 as int].dirty
                            == pre_iter.comps@[c2 as int].dirty);
                        if exists|m: int| 0 <= m < k + 1
                            && mid.cells@[i as int].subs@[m] == c2 {
                            let m = choose|m: int| 0 <= m < k + 1
                                && mid.cells@[i as int].subs@[m] == c2;
                            assert(m < k);
                        }
                    }
                }
            }
            k = k + 1;
        }
        proof {
            assert forall|c: usize| (c as int) < self.n_comps()
                implies #[trigger] self.comps@[c as int].dirty == (
                    old(self).comps@[c as int].dirty
                    || old(self).cells@[i as int].subs@.contains(c)) by {
                if old(self).cells@[i as int].subs@.contains(c) {
                    let m = choose|m: int| 0 <= m < old(self).cells@[i as int].subs@.len()
                        && old(self).cells@[i as int].subs@[m] == c;
                    assert(mid.cells@[i as int].subs@[m] == c);
                    assert(self.comps@[c as int].dirty);
                } else {
                    if exists|m: int| 0 <= m < n_subs
                        && mid.cells@[i as int].subs@[m] == c {
                        let m = choose|m: int| 0 <= m < n_subs
                            && mid.cells@[i as int].subs@[m] == c;
                        assert(old(self).cells@[i as int].subs@.contains(c));
                    }
                }
            }
            assert forall|c: int| 0 <= c < self.n_comps()
                implies #[trigger] self.comps@[c].deps == old(self).comps@[c].deps by {
                assert(self.comps@[c].body == mid.comps@[c].body);
            }
            assert forall|c: int| 0 <= c < self.n_comps()
                implies #[trigger] self.comps@[c].subs == old(self).comps@[c].subs by {
                assert(self.comps@[c].body == mid.comps@[c].body);
            }
            assert forall|c: int| 0 <= c < self.n_comps()
                implies #[trigger] self.comps@[c].body == old(self).comps@[c].body by {
                assert(self.comps@[c].body == mid.comps@[c].body);
            }
            assert forall|c: int| 0 <= c < self.n_comps()
                implies (#[trigger] self.is_derived(c) <==> old(self).is_derived(c)) by {
                assert(self.comps@[c].body == mid.comps@[c].body);
                assert(self.comps@[c].kind == mid.comps@[c].kind);
            }
            old(self).lemma_wf_same_graph(*self);
        }
        Ok(())
    }

    /// Atomically replaces the value of cell `i` with `f` applied to it:
    /// one read, one application, one write — the subscribers are dirtied
    /// once, with no intermediate state visible to the scheduler. Succeeds
    /// exactly when the cell exists.
    pub fn update_cell<F: FnOnce(i64) -> i64>(&mut self, i: usize, f: F) -> (r: Result<
        (),
        EngineError,
    >)
        requires
            old(self).wf(),
            (i as int) < old(self).n_cells() ==> old(self).cell_version(i as int) < u64::MAX,
            forall|x: i64| f.requires((x,)),
        ensures
            final(self).wf(),
            (i as int) >= old(self).n_cells() ==> r == Err::<(), EngineError>(
                EngineError::TrackingViolation) && *final(self) == *old(self),
            (i as int) < old(self).n_cells() ==> r == Ok::<(), EngineError>(())
                && exists|v: i64| f.ensures((old(self).cell_value(i as int),), v)
                    && Engine::written(*old(self), *final(self), i as int, v),
    {
        if i >= self.cells.len() {
            return Err(EngineError::TrackingViolation);
        }
        let cur = self.cells[i].value;
        let v = f(cur);
        self.write_cell(i, v)
    }

    /// Whether `e` only reads valid sources created before computation
    /// `bound`.
    fn validate_body(&self, e: &Expr, bound: usize) -> (r: bool)
        requires
            bound <= self.n_comps(),
        ensures
            r == self.body_ok(*e, bound as int),
        decreases expr_size(*e),
    {
        match e {
            Expr::Const(_) => true,
            Expr::Read(s) => match s {
                SourceId::Cell(i) => *i < self.cells.len(),
                SourceId::Comp(j) => *j < bound && matches!(self.comps[*j].kind, CompKind::Derived { .. }),
            },
            Expr::Plus(a, b) => self.validate_body(a, bound) && self.validate_body(b, bound),
            Expr::If(c, t, f) => self.validate_body(c, bound) && self.validate_body(t, bound)
                && self.validate_body(f, bound),
        }
    }

    /// Evaluates `e` against the current state, recording each source it
    /// reads in `reads` (first occurrence only). Returns `None` when the
    /// run fails: an addition overflowed, or it read a disposed or failed
    /// derived computation.
    fn eval_track(&self, e: &Expr, reads: &mut Vec<SourceId>) -> (r: Option<i64>)
        requires
            self.body_ok(*e, self.n_comps()),
            Engine::nodup(old(reads)@),
        ensures
            r == self.eval_now(*e),
            Engine::nodup(final(reads)@),
            final(reads)@.to_set().subset_of(old(reads)@.to_set().union(expr_refs(*e))),
            old(reads)@.to_set().subset_of(final(reads)@.to_set()),
            r is Some ==> final(reads)@.to_set() == old(reads)@.to_set().union(
                self.reads_now(*e)),
        decreases expr_size(*e),
    {
        match e {
            Expr::Const(n) => {
                proof {
                    assert(final(reads)@.to_set() =~= old(reads)@.to_set().union(
                        self.reads_now(*e)));
                }
                Some(*n)
            },
            Expr::Read(s) => {
                if !contains_src(reads, *s) {
                    reads.push(*s);
                    proof {
                        assert(Engine::nodup(reads@));
                        assert forall|x: SourceId| #[trigger] reads@.contains(x)
                            implies old(reads)@.contains(x) || x == *s by {
                            let m = choose|m: int| 0 <= m < reads@.len() && reads@[m] == x;
                            if m < old(reads)@.len() {
                                assert(old(reads)@[m] == x);
                            }
                        }
                        assert(reads@.contains(*s)) by {
                            assert(reads@[reads@.len() - 1] == *s);
                        }
                        assert forall|x: SourceId| old(reads)@.contains(x)
                            implies reads@.contains(x) by {
                            let m = choose|m: int| 0 <= m < old(reads)@.len()
                                && old(reads)@[m] == x;
                            assert(reads@[m] == x);
                        }
                    }
                }
                proof {
                    assert(reads@.to_set() =~= old(reads)@.to_set().union(set![*s]));
                }
                match s {
                    SourceId::Cell(i) => Some(self.cells[*i].value),
                    SourceId::Comp(j) => {
                        let comp = &self.comps[*j];
                        if comp.disposed || comp.failed {
                            None
                        } else {
                            match &comp.kind {
                                CompKind::Derived { cache } => Some(*cache),
                                CompKind::Effect { .. } => None,
                            }
                        }
                    },
                }
            },
            Expr::Plus(a, b) => {
                let ra = self.eval_track(a, reads);
                match ra {
                    None => {
                        proof {
                            assert(reads@.to_set().subset_of(old(reads)@.to_set().union(
                                expr_refs(*e))));
                        }
                        None
                    },
                    Some(x) => {
                        let rb = self.eval_track(b, reads);
                        match rb {
                            None => None,
                            Some(y) => {
                                proof {
                                    if self.eval_now(*e) is Some {
                                        assert(reads@.to_set() =~= old(reads)@.to_set().union(
                                            self.reads_now(*e)));
                                    }
                                }
                                x.checked_add(y)
                            },
                        }
                    },
                }
            },
            Expr::If(c, t, f) => {
                let rc = self.eval_track(c, reads);
                match rc {
                    None => None,
                    Some(v) => {
                        let rbr = if v != 0 {
                            self.eval_track(t, reads)
                        } else {
                            self.eval_track(f, reads)
                        };
                        proof {
                            if rbr is Some {
                                assert(reads@.to_set() =~= old(reads)@.to_set().union(
                                    self.reads_now(*e)));
                            }
                        }
                        rbr
                    },
                }
            },
        }
    }

    /// A vector's abstract length fits in `usize`.
    pub proof fn lemma_vec_len_bound<T>(v: Vec<T>)
        ensures
            v@.len() <= usize::MAX,
    {
        broadcast use vstd::std_specs::vec::group_vec_axioms;

        assert(vstd::std_specs::vec::spec_vec_len(&v) == v@.len());
    }

    /// Membership in a sequence after a push.
    pub proof fn lemma_push_contains<A>(s: Seq<A>, x: A, y: A)
        ensures
            s.push(x).contains(y) <==> (s.contains(y) || y == x),
    {
        if s.push(x).contains(y) {
            let m = choose|m: int| 0 <= m < s.push(x).len() && s.push(x)[m] == y;
            if m < s.len() {
                assert(s[m] == y);
            }
        }
        if s.contains(y) {
            let m = choose|m: int| 0 <= m < s.len() && s[m] == y;
            assert(s.push(x)[m] == y);
        }
        assert(s.push(x)[s.len() as int] == x);
    }

    /// Well-formedness of the engine after `add_comp` has pushed a new
    /// computation and subscribed it to its dependency record `ds`.
    proof fn lemma_add_comp_wf(self, g0: Engine, mid: Engine, ds: Seq<SourceId>, id: usize)
        requires
            g0.wf(),
            id == g0.n_comps(),
            mid.comps@ == g0.comps@.push(mid.comps@[id as int]),
            mid.cells@ == g0.cells@,
            ds == mid.comps@[id as int].deps@,
            Engine::nodup(ds),
            forall|s: SourceId| ds.contains(s) ==> g0.src_valid(s)
                && (s matches SourceId::Comp(j) ==> j < id),
            g0.body_ok(mid.comps@[id as int].body, id as int),
            mid.comps@[id as int].subs@.len() == 0,
            self.n_cells() == mid.n_cells(),
            self.n_comps() == mid.n_comps(),
            forall|i: usize| (i as int) < self.n_cells()
                ==> #[trigger] self.cells@[i as int].subs@ == (
                    if ds.contains(SourceId::Cell(i)) {
                        mid.cells@[i as int].subs@.push(id)
                    } else {
                        mid.cells@[i as int].subs@
                    }),
            forall|c: int| 0 <= c < self.n_comps()
                ==> #[trigger] self.comps@[c].body == mid.comps@[c].body,
            forall|c: int| 0 <= c < self.n_comps()
                ==> #[trigger] self.comps@[c].kind == mid.comps@[c].kind,
            forall|c: int| 0 <= c < self.n_comps()
                ==> #[trigger] self.comps@[c].deps == mid.comps@[c].deps,
            forall|c: usize| (c as int) < self.n_comps()
                ==> #[trigger] self.comps@[c as int].subs@ == (
                    if ds.contains(SourceId::Comp(c)) {
                        mid.comps@[c as int].subs@.push(id)
                    } else {
                        mid.comps@[c as int].subs@
                    }),
        ensures
            self.wf(),
    {
        let n = self.n_comps();
        assert(n == id + 1);
        Self::lemma_vec_len_bound(self.cells);
        Self::lemma_vec_len_bound(self.comps);
        assert forall|j: int| 0 <= j < g0.n_comps()
            implies (#[trigger] self.is_derived(j) <==> g0.is_derived(j)) by {
            assert(self.comps@[j].kind == mid.comps@[j].kind);
            assert(mid.comps@[j] == g0.comps@[j]);
        }
        assert forall|c: int| 0 <= c < n
            implies self.body_ok(#[trigger] self.comps@[c].body, c) by {
            if c < id {
                assert(mid.comps@[c] == g0.comps@[c]);
                assert(g0.body_ok(g0.comps@[c].body, c));
                g0.lemma_body_ok_grow(g0.comps@[c].body, c, self);
            } else {
                g0.lemma_body_ok_grow(mid.comps@[id as int].body, id as int, self);
            }
        }
        assert forall|c: int| 0 <= c < n
            implies Engine::nodup(#[trigger] self.comps@[c].deps@) by {
            if c < id {
                assert(mid.comps@[c] == g0.comps@[c]);
                assert(Engine::nodup(g0.comps@[c].deps@));
            }
        }
        assert forall|c: int, s: SourceId| 0 <= c < n
            && #[trigger] self.deps_of(c).contains(s)
            implies self.src_valid(s) && (s matches SourceId::Comp(j) ==> j < c) by {
            if c < id {
                assert(mid.comps@[c] == g0.comps@[c]);
                assert(g0.deps_of(c).contains(s));
                assert(g0.src_valid(s));
            } else {
                assert(ds.contains(s));
                assert(g0.src_valid(s));
            }
        }
        assert forall|i: int| 0 <= i < self.n_cells()
            implies Engine::nodup(#[trigger] self.cells@[i].subs@) by {
            assert(mid.cells@[i] == g0.cells@[i]);
            assert(Engine::nodup(g0.cells@[i].subs@));
            if ds.contains(SourceId::Cell(i as usize)) {
                assert forall|k1: int, k2: int|
                    0 <= k1 < k2 < self.cells@[i].subs@.len()
                    implies self.cells@[i].subs@[k1] != self.cells@[i].subs@[k2] by {
                    if k2 == self.cells@[i].subs@.len() - 1 {
                        assert(g0.cells@[i].subs@.contains(g0.cells@[i].subs@[k1]));
                        assert(g0.cells@[i].subs@[k1] < id);
                    }
                }
            }
        }
        assert forall|c: int| 0 <= c < n
            implies Engine::nodup(#[trigger] self.comps@[c].subs@) by {
            if c < id {
                assert(mid.comps@[c] == g0.comps@[c]);
                assert(Engine::nodup(g0.comps@[c].subs@));
                if ds.contains(SourceId::Comp(c as usize)) {
                    assert forall|k1: int, k2: int|
                        0 <= k1 < k2 < self.comps@[c].subs@.len()
                        implies self.comps@[c].subs@[k1] != self.comps@[c].subs@[k2] by {
                        if k2 == self.comps@[c].subs@.len() - 1 {
                            assert(g0.comps@[c].subs@.contains(g0.comps@[c].subs@[k1]));
                            assert(g0.comps@[c].subs@[k1] < id);
                        }
                    }
                }
            } else {
                assert(!ds.contains(SourceId::Comp(c as usize)));
            }
        }
        assert forall|i: int, k: usize| 0 <= i < self.n_cells()
            && #[trigger] self.cells@[i].subs@.contains(k)
            implies k < n by {
            assert(mid.cells@[i] == g0.cells@[i]);
            Self::lemma_push_contains(g0.cells@[i].subs@, id, k);
            if g0.cells@[i].subs@.contains(k) {
                assert(k < g0.n_comps());
            }
        }
        assert forall|j: int, k: usize| 0 <= j < n
            && #[trigger] self.comps@[j].subs@.contains(k)
            implies k < n by {
            if j < id {
                assert(mid.comps@[j] == g0.comps@[j]);
                Self::lemma_push_contains(g0.comps@[j].subs@, id, k);
                if g0.comps@[j].subs@.contains(k) {
                    assert(k < g0.n_comps());
                }
            } else {
                assert(!ds.contains(SourceId::Comp(j as usize)));
            }
        }
        assert forall|i: int, k: usize| 0 <= i < self.n_cells() && k < n
            implies (#[trigger] self.cells@[i].subs@.contains(k)
                <==> #[trigger] self.deps_of(k as int).contains(
                    SourceId::Cell(i as usize))) by {
            assert(mid.cells@[i] == g0.cells@[i]);
            Self::lemma_push_contains(g0.cells@[i].subs@, id, k);
            if (k as int) < id {
                assert(mid.comps@[k as int] == g0.comps@[k as int]);
                assert(g0.cells@[i].subs@.contains(k)
                    <==> g0.deps_of(k as int).contains(SourceId::Cell(i as usize)));
                if g0.cells@[i].subs@.contains(k) {
                    assert(k < g0.n_comps());
                }
            } else {
                assert(!g0.cells@[i].subs@.contains(k)) by {
                    if g0.cells@[i].subs@.contains(k) {
                        assert(k < g0.n_comps());
                    }
                }
                assert(self.deps_of(id as int) == ds.to_set());
            }
        }
        assert forall|j: int, k: usize| 0 <= j < n && k < n
            implies (#[trigger] self.comps@[j].subs@.contains(k)
                <==> #[trigger] self.deps_of(k as int).contains(
                    SourceId::Comp(j as usize))) by {
            if j < id {
                assert(mid.comps@[j] == g0.comps@[j]);
                Self::lemma_push_contains(g0.comps@[j].subs@, id, k);
                if (k as int) < id {
                    assert(mid.comps@[k as int] == g0.comps@[k as int]);
                    assert(g0.comps@[j].subs@.contains(k)
                        <==> g0.deps_of(k as int).contains(SourceId::Comp(j as usize)));
                    if g0.comps@[j].subs@.contains(k) {
                        assert(k < g0.n_comps());
                    }
                } else {
                    assert(!g0.comps@[j].subs@.contains(k)) by {
                        if g0.comps@[j].subs@.contains(k) {
                            assert(k < g0.n_comps());
                        }
                    }
                    assert(self.deps_of(id as int) == ds.to_set());
                }
            } else {
                assert(!ds.contains(SourceId::Comp(j as usize)));
                assert(self.comps@[j].subs@.len() == 0);
                if self.deps_of(k as int).contains(SourceId::Comp(j as usize)) {
                    if (k as int) < id {
                        assert(mid.comps@[k as int] == g0.comps@[k as int]);
                        assert(g0.deps_of(k as int).contains(SourceId::Comp(j as usize)));
                        assert(j < k as int);
                        assert(false);
                    } else {
                        assert(ds.contains(SourceId::Comp(j as usize)));
                        assert(false);
                    }
                }
            }
        }
    }

    /// The creation contract follows from what the push and the
    /// subscription pass established.
    proof fn lemma_comp_added_post(
        pre: Engine,
        pushed: Engine,
        post: Engine,
        body: Expr,
        derived: bool,
    )
        requires
            pushed.comps@ == pre.comps@.push(pushed.comps@[pre.n_comps()]),
            pushed.cells@ == pre.cells@,
            pushed.comps@[pre.n_comps()].body == body,
            (pushed.is_derived(pre.n_comps()) <==> derived),
            !pushed.comps@[pre.n_comps()].dirty,
            !pushed.comps@[pre.n_comps()].disposed,
            pre.eval_now(body) is Some ==> !pushed.comps@[pre.n_comps()].failed
                && pushed.deps_of(pre.n_comps()) == pre.reads_now(body)
                && (derived ==> pushed.cache_of(pre.n_comps())
                    == pre.eval_now(body)->Some_0)
                && (!derived ==> pushed.log_of(pre.n_comps())
                    == seq![pre.eval_now(body)->Some_0]),
            pre.eval_now(body) is None ==> pushed.comps@[pre.n_comps()].failed
                && pushed.deps_of(pre.n_comps()) == Set::<SourceId>::empty()
                && (derived ==> pushed.cache_of(pre.n_comps()) == 0)
                && (!derived ==> pushed.log_of(pre.n_comps()) == Seq::<i64>::empty()),
            post.n_cells() == pre.n_cells(),
            post.n_comps() == pre.n_comps() + 1,
            forall|i: int| 0 <= i < pre.n_cells()
                ==> #[trigger] post.cells@[i].value == pushed.cells@[i].value
                    && post.cells@[i].version == pushed.cells@[i].version,
            forall|c: int| 0 <= c <= pre.n_comps()
                ==> #[trigger] post.comps@[c].body == pushed.comps@[c].body,
            forall|c: int| 0 <= c <= pre.n_comps()
                ==> #[trigger] post.comps@[c].kind == pushed.comps@[c].kind,
            forall|c: int| 0 <= c <= pre.n_comps()
                ==> #[trigger] post.comps@[c].deps == pushed.comps@[c].deps,
            forall|c: int| 0 <= c <= pre.n_comps()
                ==> #[trigger] post.comps@[c].dirty == pushed.comps@[c].dirty,
            forall|c: int| 0 <= c <= pre.n_comps()
                ==> #[trigger] post.comps@[c].failed == pushed.comps@[c].failed,
            forall|c: int| 0 <= c <= pre.n_comps()
                ==> #[trigger] post.comps@[c].disposed == pushed.comps@[c].disposed,
        ensures
            Engine::comp_added(pre, post, body, derived),
    {
        let id = pre.n_comps();
        assert forall|c: int| 0 <= c < id
            implies #[trigger] post.comps@[c].body == pre.comps@[c].body
                && post.comps@[c].kind == pre.comps@[c].kind
                && post.comps@[c].deps == pre.comps@[c].deps
                && post.comps@[c].dirty == pre.comps@[c].dirty
                && post.comps@[c].failed == pre.comps@[c].failed
                && post.comps@[c].disposed == pre.comps@[c].disposed by {
            assert(pushed.comps@[c] == pre.comps@[c]);
        }
        assert(post.deps_of(id) =~= pushed.deps_of(id));
        assert(post.cache_of(id) == pushed.cache_of(id));
        assert(post.log_of(id) == pushed.log_of(id));
        assert(post.comps@[id].body == body);
        assert forall|i: int| 0 <= i < pre.n_cells()
            implies #[trigger] post.cells@[i].value == pre.cells@[i].value
                && post.cells@[i].version == pre.cells@[i].version by {
            assert(post.cells@[i].value == pushed.cells@[i].value);
            assert(pushed.cells@[i] == pre.cells@[i]);
        }
        assert forall|c: int| 0 <= c < id
            implies #[trigger] post.comps@[c].kind == pre.comps@[c].kind by {
            assert(pushed.comps@[c] == pre.comps@[c]);
        }
        assert forall|c: int| 0 <= c < id
            implies #[trigger] post.comps@[c].deps == pre.comps@[c].deps by {
            assert(pushed.comps@[c] == pre.comps@[c]);
        }
        assert forall|c: int| 0 <= c < id
            implies #[trigger] post.comps@[c].dirty == pre.comps@[c].dirty
                && post.comps@[c].failed == pre.comps@[c].failed
                && post.comps@[c].disposed == pre.comps@[c].disposed by {
            assert(pushed.comps@[c] == pre.comps@[c]);
        }
        assert forall|c: int| 0 <= c < id
            implies #[trigger] post.comps@[c].body == pre.comps@[c].body by {
            assert(pushed.comps@[c] == pre.comps@[c]);
        }
        assert(post.is_derived(id) <==> derived);
        assert(!post.comps@[id].dirty);
        assert(!post.comps@[id].disposed);
        if pre.eval_now(body) is Some {
            assert(!post.comps@[id].failed);
            assert(post.deps_of(id) == pre.reads_now(body));
            if derived {
                assert(post.cache_of(id) == pre.eval_now(body)->Some_0);
            } else {
                assert(post.log_of(id) == seq![pre.eval_now(body)->Some_0]);
            }
        } else {
            assert(post.comps@[id].failed);
            assert(post.deps_of(id) == Set::<SourceId>::empty());
        }
        assert(Engine::comp_added(pre, post, body, derived));
    }

    /// One computation added as `create_effect` / `create_derived` perform
    /// it: the new computation ran once, synchronously, against the
    /// pre-creation state, establishing its initial dependencies; on
    /// success an effect logs the produced value and a derived computation
    /// caches it; on failure the computation starts failed, with no
    /// dependencies. Nothing else moves.
    pub open spec fn comp_added(pre: Engine, post: Engine, body: Expr, derived: bool) -> bool {
        let id = pre.n_comps();
        &&& post.n_comps() == id + 1
        &&& post.n_cells() == pre.n_cells()
        &&& forall|i: int| 0 <= i < pre.n_cells()
            ==> #[trigger] post.cells@[i].value == pre.cells@[i].value
                && post.cells@[i].version == pre.cells@[i].version
        &&& forall|c: int| 0 <= c < id
            ==> #[trigger] post.comps@[c].body == pre.comps@[c].body
        &&& forall|c: int| 0 <= c < id
            ==> #[trigger] post.comps@[c].kind == pre.comps@[c].kind
        &&& forall|c: int| 0 <= c < id
            ==> #[trigger] post.comps@[c].deps == pre.comps@[c].deps
        &&& forall|c: int| 0 <= c < id
            ==> #[trigger] post.comps@[c].dirty == pre.comps@[c].dirty
                && post.comps@[c].failed == pre.comps@[c].failed
                && post.comps@[c].disposed == pre.comps@[c].disposed
        &&& post.comps@[id].body == body
        &&& (post.is_derived(id) <==> derived)
        &&& !post.comps@[id].dirty
        &&& !post.comps@[id].disposed
        &&& (pre.eval_now(body) is Some ==> {
            let v = pre.eval_now(body)->Some_0;
            &&& !post.comps@[id].failed
            &&& post.deps_of(id) == pre.reads_now(body)
            &&& (derived ==> post.cache_of(id) == v)
            &&& (!derived ==> post.log_of(id) == seq![v])
        })
        &&& (pre.eval_now(body) is None ==> {
            &&& post.comps@[id].failed
            &&& post.deps_of(id) == Set::<SourceId>::empty()
            &&& (derived ==> post.cache_of(id) == 0)
            &&& (!derived ==> post.log_of(id) == Seq::<i64>::empty())
        })
    }

    /// Subscribes the freshly pushed computation `id` to every source in
    /// its dependency record, restoring well-formedness.
    #[verifier::rlimit(100)]
    #[verifier::spinoff_prover]
    fn subscribe_new(&mut self, id: usize, Ghost(g0): Ghost<Engine>)
        requires
            g0.wf(),
            id == g0.n_comps(),
            old(self).comps@ == g0.comps@.push(old(self).comps@[id as int]),
            old(self).cells@ == g0.cells@,
            Engine::nodup(old(self).comps@[id as int].deps@),
            forall|s: SourceId| old(self).comps@[id as int].deps@.contains(s)
                ==> g0.src_valid(s) && (s matches SourceId::Comp(j) ==> j < id),
            g0.body_ok(old(self).comps@[id as int].body, id as int),
            old(self).comps@[id as int].subs@.len() == 0,
        ensures
            final(self).wf(),
            final(self).n_cells() == g0.n_cells(),
            final(self).n_comps() == g0.n_comps() + 1,
            forall|i: int| 0 <= i < g0.n_cells()
                ==> #[trigger] final(self).cells@[i].value == g0.cells@[i].value
                    && final(self).cells@[i].version == g0.cells@[i].version,
            forall|c: int| 0 <= c <= g0.n_comps()
                ==> #[trigger] final(self).comps@[c].body == old(self).comps@[c].body,
            forall|c: int| 0 <= c <= g0.n_comps()
                ==> #[trigger] final(self).comps@[c].kind == old(self).comps@[c].kind,
            forall|c: int| 0 <= c <= g0.n_comps()
                ==> #[trigger] final(self).comps@[c].deps == old(self).comps@[c].deps,
            forall|c: int| 0 <= c <= g0.n_comps()
                ==> #[trigger] final(self).comps@[c].dirty == old(self).comps@[c].dirty,
            forall|c: int| 0 <= c <= g0.n_comps()
                ==> #[trigger] final(self).comps@[c].failed == old(self).comps@[c].failed,
            forall|c: int| 0 <= c <= g0.n_comps()
                ==> #[trigger] final(self).comps@[c].disposed == old(self).comps@[c].disposed,
    {
        let ghost mid = *old(self);
        let ghost ds = mid.comps@[id as int].deps@;
        let n_deps = self.comps[id].deps.len();
        let mut k: usize = 0;
        while k < n_deps
            invariant
                g0.wf(),
                id == g0.n_comps(),
                mid.comps@ == g0.comps@.push(mid.comps@[id as int]),
                mid.cells@ == g0.cells@,
                ds == mid.comps@[id as int].deps@,
                Engine::nodup(ds),
                n_deps == ds.len(),
                k <= n_deps,
                forall|s: SourceId| ds.contains(s) ==> g0.src_valid(s)
                    && (s matches SourceId::Comp(j) ==> j < id),
                self.n_cells() == mid.n_cells(),
                self.n_comps() == mid.n_comps(),
                forall|i: int| 0 <= i < self.n_cells()
                    ==> #[trigger] self.cells@[i].value == mid.cells@[i].value
                        && self.cells@[i].version == mid.cells@[i].version,
                forall|i: usize| (i as int) < self.n_cells()
                    ==> #[trigger] self.cells@[i as int].subs@ == (
                        if ds.subrange(0, k as int).contains(SourceId::Cell(i)) {
                            mid.cells@[i as int].subs@.push(id)
                        } else {
                            mid.cells@[i as int].subs@
                        }),
                id < self.n_comps(),
                forall|c: int| 0 <= c < self.n_comps()
                    ==> #[trigger] self.comps@[c].body == mid.comps@[c].body,
                forall|c: int| 0 <= c < self.n_comps()
                    ==> #[trigger] self.comps@[c].kind == mid.comps@[c].kind,
                forall|c: int| 0 <= c < self.n_comps()
                    ==> #[trigger] self.comps@[c].deps == mid.comps@[c].deps,
                forall|c: int| 0 <= c < self.n_comps()
                    ==> #[trigger] self.comps@[c].dirty == mid.comps@[c].dirty
                        && self.comps@[c].failed == mid.comps@[c].failed
                        && self.comps@[c].disposed == mid.comps@[c].disposed,
                forall|c: usize| (c as int) < self.n_comps()
                    ==> #[trigger] self.comps@[c as int].subs@ == (
                        if ds.subrange(0, k as int).contains(SourceId::Comp(c)) {
                            mid.comps@[c as int].subs@.push(id)
                        } else {
                            mid.comps@[c as int].subs@
                        }),
            decreases n_deps - k,
        {
            let s = self.comps[id].deps[k];
            proof {
                assert(ds[k as int] == s);
                assert(ds.contains(s));
                assert(forall|m: int| 0 <= m < k ==> ds[m] != s);
                assert(!ds.subrange(0, k as int).contains(s));
                assert(ds.subrange(0, k as int + 1) =~= ds.subrange(0, k as int).push(s));
            }
            let ghost pre_iter = *self;
            match s {
                SourceId::Cell(i) => {
                    self.cells[i].subs.push(id);
                    proof {
                        assert forall|i2: usize| (i2 as int) < self.n_cells()
                            implies #[trigger] self.cells@[i2 as int].subs@ == (
                                if ds.subrange(0, k as int + 1).contains(
                                    SourceId::Cell(i2)) {
                                    mid.cells@[i2 as int].subs@.push(id)
                                } else {
                                    mid.cells@[i2 as int].subs@
                                }) by {
                            Self::lemma_push_contains(
                                ds.subrange(0, k as int), s, SourceId::Cell(i2));
                            if i2 != i {
                                assert(self.cells@[i2 as int] == pre_iter.cells@[i2 as int]);
                            } else {
                                assert(self.cells@[i as int].subs@
                                    == pre_iter.cells@[i as int].subs@.push(id));
                                assert(ds.subrange(0, k as int + 1).contains(s));
                            }
                        }
                        assert forall|c2: int| 0 <= c2 < self.n_comps()
                            implies #[trigger] self.comps@[c2].body == mid.comps@[c2].body by {
                            assert(self.comps@[c2].body == pre_iter.comps@[c2].body);
                        }
                        assert forall|c2: int| 0 <= c2 < self.n_comps()
                            implies #[trigger] self.comps@[c2].kind == mid.comps@[c2].kind by {
                            assert(self.comps@[c2].kind == pre_iter.comps@[c2].kind);
                        }
                        assert forall|c2: int| 0 <= c2 < self.n_comps()
                            implies #[trigger] self.comps@[c2].deps == mid.comps@[c2].deps by {
                            assert(self.comps@[c2].deps == pre_iter.comps@[c2].deps);
                        }
                        assert forall|c2: int| 0 <= c2 < self.n_comps()
                            implies #[trigger] self.comps@[c2].dirty == mid.comps@[c2].dirty
                                && self.comps@[c2].failed == mid.comps@[c2].failed
                                && self.comps@[c2].disposed == mid.comps@[c2].disposed by {
                            assert(self.comps@[c2].dirty == pre_iter.comps@[c2].dirty);
                            assert(self.comps@[c2].failed == pre_iter.comps@[c2].failed);
                            assert(self.comps@[c2].disposed == pre_iter.comps@[c2].disposed);
                        }

                        assert forall|c: usize| (c as int) < self.n_comps()
                            implies #[trigger] self.comps@[c as int].subs@ == (
                                if ds.subrange(0, k as int + 1).contains(
                                    SourceId::Comp(c)) {
                                    mid.comps@[c as int].subs@.push(id)
                                } else {
                                    mid.comps@[c as int].subs@
                                }) by {
                            assert(self.comps@[c as int].subs@ == pre_iter.comps@[c as int].subs@);
                            Self::lemma_push_contains(
                                ds.subrange(0, k as int), s, SourceId::Comp(c));
                        }
                    }
                },
                SourceId::Comp(j) => {
                    self.comps[j].subs.push(id);
                    proof {
                        assert forall|i2: usize| (i2 as int) < self.n_cells()
                            implies #[trigger] self.cells@[i2 as int].subs@ == (
                                if ds.subrange(0, k as int + 1).contains(
                                    SourceId::Cell(i2)) {
                                    mid.cells@[i2 as int].subs@.push(id)
                                } else {
                                    mid.cells@[i2 as int].subs@
                                }) by {
                            assert(self.cells@[i2 as int] == pre_iter.cells@[i2 as int]);
                            Self::lemma_push_contains(
                                ds.subrange(0, k as int), s, SourceId::Cell(i2));
                        }
                        assert forall|c: usize| (c as int) < self.n_comps()
                            implies #[trigger] self.comps@[c as int].subs@ == (
                                if ds.subrange(0, k as int + 1).contains(
                                    SourceId::Comp(c)) {
                                    mid.comps@[c as int].subs@.push(id)
                                } else {
                                    mid.comps@[c as int].subs@
                                }) by {
                            Self::lemma_push_contains(
                                ds.subrange(0, k as int), s, SourceId::Comp(c));
                            if c != j {
                                assert(self.comps@[c as int].subs@ == pre_iter.comps@[c as int].subs@);
                            } else {
                                assert(self.comps@[j as int].subs@
                                    == pre_iter.comps@[j as int].subs@.push(id));
                                assert(ds.subrange(0, k as int + 1).contains(s));
                            }
                        }
                        assert forall|c: int| 0 <= c < self.n_comps()
                            implies #[trigger] self.comps@[c].body == mid.comps@[c].body by {
                            assert(self.comps@[c].body == pre_iter.comps@[c].body);
                        }
                        assert forall|c: int| 0 <= c < self.n_comps()
                            implies #[trigger] self.comps@[c].kind == mid.comps@[c].kind by {
                            assert(self.comps@[c].kind == pre_iter.comps@[c].kind);
                        }
                        assert forall|c: int| 0 <= c < self.n_comps()
                            implies #[trigger] self.comps@[c].deps == mid.comps@[c].deps by {
                            assert(self.comps@[c].deps == pre_iter.comps@[c].deps);
                        }
                        assert forall|c: int| 0 <= c < self.n_comps()
                            implies #[trigger] self.comps@[c].dirty == mid.comps@[c].dirty
                                && self.comps@[c].failed == mid.comps@[c].failed
                                && self.comps@[c].disposed == mid.comps@[c].disposed by {
                            assert(self.comps@[c].dirty == pre_iter.comps@[c].dirty);
                            assert(self.comps@[c].failed == pre_iter.comps@[c].failed);
                            assert(self.comps@[c].disposed == pre_iter.comps@[c].disposed);
                        }
                    }
                },
            }
            k = k + 1;
        }
        proof {
            assert(ds.subrange(0, n_deps as int) =~= ds);
            self.lemma_add_comp_wf(g0, mid, ds, id);
        }
        proof {
            assert forall|i: int| 0 <= i < g0.n_cells()
                implies #[trigger] self.cells@[i].value == g0.cells@[i].value
                    && self.cells@[i].version == g0.cells@[i].version by {
                assert(self.cells@[i].value == mid.cells@[i].value);
                assert(mid.cells@[i] == g0.cells@[i]);
            }
            assert forall|c: int| 0 <= c <= g0.n_comps()
                implies #[trigger] self.comps@[c].body == mid.comps@[c].body by {
                assert(self.comps@[c].body == mid.comps@[c].body);
            }
            assert forall|c: int| 0 <= c <= g0.n_comps()
                implies #[trigger] self.comps@[c].kind == mid.comps@[c].kind by {
                assert(self.comps@[c].kind == mid.comps@[c].kind);
            }
            assert forall|c: int| 0 <= c <= g0.n_comps()
                implies #[trigger] self.comps@[c].deps == mid.comps@[c].deps by {
                assert(self.comps@[c].deps == mid.comps@[c].deps);
            }
            assert forall|c: int| 0 <= c <= g0.n_comps()
                implies #[trigger] self.comps@[c].dirty == old(self).comps@[c].dirty by {
                assert(self.comps@[c].dirty == mid.comps@[c].dirty);
            }
            assert forall|c: int| 0 <= c <= g0.n_comps()
                implies #[trigger] self.comps@[c].failed == old(self).comps@[c].failed by {
                assert(self.comps@[c].dirty == mid.comps@[c].dirty);
                assert(self.comps@[c].failed == mid.comps@[c].failed);
            }
            assert forall|c: int| 0 <= c <= g0.n_comps()
                implies #[trigger] self.comps@[c].disposed == old(self).comps@[c].disposed by {
                assert(self.comps@[c].dirty == mid.comps@[c].dirty);
                assert(self.comps@[c].disposed == mid.comps@[c].disposed);
            }
        }
    }

    /// Adds a computation whose body is `body`, validates the body, runs it
    /// once, and subscribes it to everything it read.
    fn add_comp(&mut self, body: Expr, derived: bool) -> (r: Result<usize, EngineError>)
        requires
            old(self).wf(),
        ensures
            final(self).wf(),
            !old(self).body_ok(body, old(self).n_comps()) ==> r == Err::<usize, EngineError>(
                EngineError::TrackingViolation) && *final(self) == *old(self),
            old(self).body_ok(body, old(self).n_comps()) ==> (r matches Ok(id)
                && id == old(self).n_comps()
                && Engine::comp_added(*old(self), *final(self), body, derived)),
    {
        let id = self.comps.len();
        if !self.validate_body(&body, id) {
            return Err(EngineError::TrackingViolation);
        }
        let mut reads: Vec<SourceId> = Vec::new();
        let res = self.eval_track(&body, &mut reads);
        let ghost rds = reads@;
        proof {
            old(self).lemma_body_ok_refs(body, id as int);
            assert(reads@.to_set().subset_of(expr_refs(body))) by {
                assert(Seq::<SourceId>::empty().to_set() =~= Set::<SourceId>::empty());
            }
        }
        let comp = match res {
            Some(v) => Comp {
                body,
                kind: if derived {
                    CompKind::Derived { cache: v }
                } else {
                    CompKind::Effect { log: vec![v] }
                },
                deps: reads,
                subs: Vec::new(),
                dirty: false,
                failed: false,
                disposed: false,
            },
            None => Comp {
                body,
                kind: if derived {
                    CompKind::Derived { cache: 0 }
                } else {
                    CompKind::Effect { log: Vec::new() }
                },
                deps: Vec::new(),
                subs: Vec::new(),
                dirty: false,
                failed: true,
                disposed: false,
            },
        };
        self.comps.push(comp);
        let ghost g0 = *old(self);
        let ghost pushed = *self;
        self.subscribe_new(id, Ghost(g0));
        proof {
            if g0.eval_now(body) is Some {
                assert(pushed.deps_of(id as int) =~= g0.reads_now(body)) by {
                    assert(pushed.comps@[id as int].deps@ == rds);
                    assert(rds.to_set() == Seq::<SourceId>::empty().to_set().union(
                        g0.reads_now(body)));
                    assert(Seq::<SourceId>::empty().to_set() =~= Set::<SourceId>::empty());
                    assert(Set::<SourceId>::empty().union(g0.reads_now(body))
                        =~= g0.reads_now(body));
                }
                if !derived {
                    assert(pushed.log_of(id as int)
                        =~= seq![g0.eval_now(body)->Some_0]);
                }
            } else {
                assert(pushed.deps_of(id as int) =~= Set::<SourceId>::empty());
                if !derived {
                    assert(pushed.log_of(id as int) =~= Seq::<i64>::empty());
                }
            }
            Self::lemma_comp_added_post(g0, pushed, *self, body, derived);
        }
        Ok(id)
    }

    /// Registers an effect with body `body` and returns its id. The effect
    /// runs once, synchronously, to establish its initial dependencies and
    /// record its first observation. Fails with `TrackingViolation` exactly
    /// when the body names an unknown source or a computation that is not
    /// derived.
    pub fn create_effect(&mut self, body: Expr) -> (r: Result<usize, EngineError>)
        requires
            old(self).wf(),
        ensures
            final(self).wf(),
            !old(self).body_ok(body, old(self).n_comps()) ==> r == Err::<usize, EngineError>(
                EngineError::TrackingViolation) && *final(self) == *old(self),
            old(self).body_ok(body, old(self).n_comps()) ==> (r matches Ok(id)
                && id == old(self).n_comps()
                && Engine::comp_added(*old(self), *final(self), body, false)),
    {
        self.add_comp(body, false)
    }

    /// Registers a derived computation with body `body` and returns its id.
    /// It runs once, synchronously, to establish its dependencies and cache
    /// its first value; other computations can then read it as a source.
    /// Fails with `TrackingViolation` exactly when the body names an unknown
    /// source or a computation that is not derived.
    pub fn create_derived(&mut self, body: Expr) -> (r: Result<usize, EngineError>)
        requires
            old(self).wf(),
        ensures
            final(self).wf(),
            !old(self).body_ok(body, old(self).n_comps()) ==> r == Err::<usize, EngineError>(
                EngineError::TrackingViolation) && *final(self) == *old(self),
            old(self).body_ok(body, old(self).n_comps()) ==> (r matches Ok(id)
                && id == old(self).n_comps()
                && Engine::comp_added(*old(self), *final(self), body, true)),
    {
        self.add_comp(body, true)
    }

    /// Reads the memoized value of derived computation `c` without
    /// tracking. Fails with `TrackingViolation` when `c` is unknown, not
    /// derived, or disposed, and with `ComputationFailure` when its most
    /// recent run failed; otherwise returns the cached value.
    pub fn read_derived(&self, c: usize) -> (r: Result<i64, EngineError>)
        ensures
            r == (if (c as int) >= self.n_comps() || !self.is_derived(c as int)
                || self.comps@[c as int].disposed {
                Err::<i64, EngineError>(EngineError::TrackingViolation)
            } else if self.comps@[c as int].failed {
                Err::<i64, EngineError>(EngineError::ComputationFailure)
            } else {
                Ok::<i64, EngineError>(self.cache_of(c as int))
            }),
    {
        if c >= self.comps.len() {
            return Err(EngineError::TrackingViolation);
        }
        let comp = &self.comps[c];
        match &comp.kind {
            CompKind::Effect { .. } => Err(EngineError::TrackingViolation),
            CompKind::Derived { cache } => if comp.disposed {
                Err(EngineError::TrackingViolation)
            } else if comp.failed {
                Err(EngineError::ComputationFailure)
            } else {
                Ok(*cache)
            },
        }
    }

    /// Whether the most recent run of computation `c` failed — the error
    /// report the host reads after a batch. Fails with `TrackingViolation`
    /// exactly when `c` is unknown.
    pub fn failed_of(&self, c: usize) -> (r: Result<bool, EngineError>)
        ensures
            r == (if (c as int) >= self.n_comps() {
                Err::<bool, EngineError>(EngineError::TrackingViolation)
            } else {
                Ok::<bool, EngineError>(self.comps@[c as int].failed)
            }),
    {
        if c >= self.comps.len() {
            return Err(EngineError::TrackingViolation);
        }
        Ok(self.comps[c].failed)
    }

    /// How many values effect `c` has recorded. Fails with
    /// `TrackingViolation` when `c` is unknown or not an effect.
    pub fn log_len(&self, c: usize) -> (r: Result<usize, EngineError>)
        ensures
            r == (if (c as int) >= self.n_comps() || !self.is_effect(c as int) {
                Err::<usize, EngineError>(EngineError::TrackingViolation)
            } else {
                Ok::<usize, EngineError>(self.log_of(c as int).len() as usize)
            }),
    {
        if c >= self.comps.len() {
            return Err(EngineError::TrackingViolation);
        }
        match &self.comps[c].kind {
            CompKind::Effect { log } => Ok(log.len()),
            CompKind::Derived { .. } => Err(EngineError::TrackingViolation),
        }
    }

    /// The `k`-th value effect `c` recorded, oldest first. Fails with
    /// `TrackingViolation` when `c` is unknown, not an effect, or `k` is out
    /// of range.
    pub fn log_get(&self, c: usize, k: usize) -> (r: Result<i64, EngineError>)
        ensures
            r == (if (c as int) >= self.n_comps() || !self.is_effect(c as int)
                || (k as int) >= self.log_of(c as int).len() {
                Err::<i64, EngineError>(EngineError::TrackingViolation)
            } else {
                Ok::<i64, EngineError>(self.log_of(c as int)[k as int])
            }),
    {
        if c >= self.comps.len() {
            return Err(EngineError::TrackingViolation);
        }
        match &self.comps[c].kind {
            CompKind::Effect { log } => if k < log.len() {
                Ok(log[k])
            } else {
                Err(EngineError::TrackingViolation)
            },
            CompKind::Derived { .. } => Err(EngineError::TrackingViolation),
        }
    }

    /// Whether computation `c` depends on source `s`: whether `c` read `s`
    /// during its most recent successful run.
    pub fn depends_on(&self, c: usize, s: SourceId) -> (r: Result<bool, EngineError>)
        ensures
            r == (if (c as int) >= self.n_comps() {
                Err::<bool, EngineError>(EngineError::TrackingViolation)
            } else {
                Ok::<bool, EngineError>(self.deps_of(c as int).contains(s))
            }),
    {
        if c >= self.comps.len() {
            return Err(EngineError::TrackingViolation);
        }
        Ok(contains_src(&self.comps[c].deps, s))
    }

    /// Disposes computation `c`: it is unsubscribed from every source it
    /// depends on, its dependency record is cleared, and it will never run
    /// again — a dirty mark it still carries is discarded, unexecuted, by
    /// the next flush. Disposing an already-disposed computation is
    /// permitted and does nothing. Fails with `TrackingViolation` exactly
    /// when `c` is unknown.
    #[verifier::rlimit(100)]
    #[verifier::spinoff_prover]
    fn detach(&mut self, c: usize, mark: bool)
        requires
            old(self).wf(),
            (c as int) < old(self).n_comps(),
        ensures
            final(self).wf(),
            Engine::detached(*old(self), *final(self), c, mark),
    {
        let mut ds: Vec<SourceId> = Vec::new();
        core::mem::swap(&mut ds, &mut self.comps[c].deps);
        if mark {
            self.comps[c].disposed = true;
        }
        let ghost mid = *self;
        let ghost dsq = ds@;
        proof {
            assert(dsq == old(self).comps@[c as int].deps@);
            assert(Engine::nodup(dsq));
            assert forall|s: SourceId| dsq.contains(s)
                implies old(self).src_valid(s)
                    && (s matches SourceId::Comp(j) ==> j < c) by {
                assert(old(self).deps_of(c as int).contains(s));
            }
        }
        let n_deps = ds.len();
        let mut k: usize = 0;
        while k < n_deps
            invariant
                old(self).wf(),
                (c as int) < old(self).n_comps(),
                n_deps == dsq.len(),
                k <= n_deps,
                dsq == old(self).comps@[c as int].deps@,
                Engine::nodup(dsq),
                ds@ == dsq,
                forall|s: SourceId| dsq.contains(s) ==> old(self).src_valid(s)
                    && (s matches SourceId::Comp(j) ==> j < c),
                mid.n_cells() == old(self).n_cells(),
                mid.n_comps() == old(self).n_comps(),
                self.n_cells() == mid.n_cells(),
                self.n_comps() == mid.n_comps(),
                mid.comps@[c as int].deps@.len() == 0,
                mid.comps@[c as int].disposed == (old(self).comps@[c as int].disposed
                    || mark),
                forall|i: int| 0 <= i < mid.n_cells()
                    ==> #[trigger] mid.cells@[i] == old(self).cells@[i],
                forall|c2: int| 0 <= c2 < mid.n_comps() && c2 != c as int
                    ==> #[trigger] mid.comps@[c2] == old(self).comps@[c2],
                mid.comps@[c as int].body == old(self).comps@[c as int].body,
                mid.comps@[c as int].kind == old(self).comps@[c as int].kind,
                mid.comps@[c as int].subs == old(self).comps@[c as int].subs,
                mid.comps@[c as int].dirty == old(self).comps@[c as int].dirty,
                mid.comps@[c as int].failed == old(self).comps@[c as int].failed,
                forall|i: int| 0 <= i < self.n_cells()
                    ==> #[trigger] self.cells@[i].value == mid.cells@[i].value
                        && self.cells@[i].version == mid.cells@[i].version,
                forall|c2: int| 0 <= c2 < self.n_comps()
                    ==> #[trigger] self.comps@[c2].body == mid.comps@[c2].body,
                forall|c2: int| 0 <= c2 < self.n_comps()
                    ==> #[trigger] self.comps@[c2].kind == mid.comps@[c2].kind,
                forall|c2: int| 0 <= c2 < self.n_comps()
                    ==> #[trigger] self.comps@[c2].deps == mid.comps@[c2].deps,
                forall|c2: int| 0 <= c2 < self.n_comps()
                    ==> #[trigger] self.comps@[c2].dirty == mid.comps@[c2].dirty
                        && self.comps@[c2].failed == mid.comps@[c2].failed
                        && self.comps@[c2].disposed == mid.comps@[c2].disposed,
                forall|i: usize| (i as int) < self.n_cells()
                    ==> Engine::nodup(#[trigger] self.cells@[i as int].subs@),
                forall|c2: usize| (c2 as int) < self.n_comps()
                    ==> Engine::nodup(#[trigger] self.comps@[c2 as int].subs@),
                forall|i: usize, x: usize| (i as int) < self.n_cells()
                    ==> (#[trigger] self.cells@[i as int].subs@.contains(x) <==> (
                        mid.cells@[i as int].subs@.contains(x)
                        && !(x == c && dsq.subrange(0, k as int).contains(
                            SourceId::Cell(i))))),
                forall|c2: usize, x: usize| (c2 as int) < self.n_comps()
                    ==> (#[trigger] self.comps@[c2 as int].subs@.contains(x) <==> (
                        mid.comps@[c2 as int].subs@.contains(x)
                        && !(x == c && dsq.subrange(0, k as int).contains(
                            SourceId::Comp(c2))))),
            decreases n_deps - k,
        {
            let s = ds[k];
            proof {
                assert(dsq[k as int] == s);
                assert(dsq.contains(s));
                assert(dsq.subrange(0, k as int + 1) =~= dsq.subrange(0, k as int).push(s));
            }
            let ghost pre_iter = *self;
            match s {
                SourceId::Cell(i) => {
                    remove_sub(&mut self.cells[i].subs, c);
                    proof {
                        assert forall|i2: int| 0 <= i2 < self.n_cells()
                            implies #[trigger] self.cells@[i2].value == mid.cells@[i2].value
                                && self.cells@[i2].version == mid.cells@[i2].version by {
                            if i2 != i as int {
                                assert(self.cells@[i2] == pre_iter.cells@[i2]);
                            } else {
                                assert(self.cells@[i2].value == pre_iter.cells@[i2].value);
                            }
                        }
                        assert forall|i2: usize, x: usize| (i2 as int) < self.n_cells()
                            implies (#[trigger] self.cells@[i2 as int].subs@.contains(x)
                                <==> (mid.cells@[i2 as int].subs@.contains(x)
                                    && !(x == c && dsq.subrange(0, k as int + 1).contains(
                                        SourceId::Cell(i2))))) by {
                            Self::lemma_push_contains(
                                dsq.subrange(0, k as int), s, SourceId::Cell(i2));
                            if i2 != i {
                                assert(self.cells@[i2 as int] == pre_iter.cells@[i2 as int]);
                            }
                        }
                        assert forall|c2: usize, x: usize| (c2 as int) < self.n_comps()
                            implies (#[trigger] self.comps@[c2 as int].subs@.contains(x)
                                <==> (mid.comps@[c2 as int].subs@.contains(x)
                                    && !(x == c && dsq.subrange(0, k as int + 1).contains(
                                        SourceId::Comp(c2))))) by {
                            Self::lemma_push_contains(
                                dsq.subrange(0, k as int), s, SourceId::Comp(c2));
                            assert(self.comps@[c2 as int].subs@
                                == pre_iter.comps@[c2 as int].subs@);
                        }
                        assert forall|c2: int| 0 <= c2 < self.n_comps()
                            implies #[trigger] self.comps@[c2].body == mid.comps@[c2].body by {
                            assert(self.comps@[c2].body == pre_iter.comps@[c2].body);
                        }
                        assert forall|c2: int| 0 <= c2 < self.n_comps()
                            implies #[trigger] self.comps@[c2].kind == mid.comps@[c2].kind by {
                            assert(self.comps@[c2].kind == pre_iter.comps@[c2].kind);
                        }
                        assert forall|c2: int| 0 <= c2 < self.n_comps()
                            implies #[trigger] self.comps@[c2].deps == mid.comps@[c2].deps by {
                            assert(self.comps@[c2].deps == pre_iter.comps@[c2].deps);
                        }
                        assert forall|c2: int| 0 <= c2 < self.n_comps()
                            implies #[trigger] self.comps@[c2].dirty == mid.comps@[c2].dirty
                                && self.comps@[c2].failed == mid.comps@[c2].failed
                                && self.comps@[c2].disposed == mid.comps@[c2].disposed by {
                            assert(self.comps@[c2].dirty == pre_iter.comps@[c2].dirty);
                            assert(self.comps@[c2].failed == pre_iter.comps@[c2].failed);
                            assert(self.comps@[c2].disposed == pre_iter.comps@[c2].disposed);
                        }

                    }
                },
                SourceId::Comp(j) => {
                    remove_sub(&mut self.comps[j].subs, c);
                    proof {
                        assert forall|i2: usize, x: usize| (i2 as int) < self.n_cells()
                            implies (#[trigger] self.cells@[i2 as int].subs@.contains(x)
                                <==> (mid.cells@[i2 as int].subs@.contains(x)
                                    && !(x == c && dsq.subrange(0, k as int + 1).contains(
                                        SourceId::Cell(i2))))) by {
                            Self::lemma_push_contains(
                                dsq.subrange(0, k as int), s, SourceId::Cell(i2));
                            assert(self.cells@[i2 as int] == pre_iter.cells@[i2 as int]);
                        }
                        assert forall|c2: usize, x: usize| (c2 as int) < self.n_comps()
                            implies (#[trigger] self.comps@[c2 as int].subs@.contains(x)
                                <==> (mid.comps@[c2 as int].subs@.contains(x)
                                    && !(x == c && dsq.subrange(0, k as int + 1).contains(
                                        SourceId::Comp(c2))))) by {
                            Self::lemma_push_contains(
                                dsq.subrange(0, k as int), s, SourceId::Comp(c2));
                            if c2 != j {
                                assert(self.comps@[c2 as int].subs@
                                    == pre_iter.comps@[c2 as int].subs@);
                            }
                        }
                        assert forall|c2: int| 0 <= c2 < self.n_comps()
                            implies #[trigger] self.comps@[c2].body == mid.comps@[c2].body by {
                            assert(self.comps@[c2].body == pre_iter.comps@[c2].body);
                        }
                        assert forall|c2: int| 0 <= c2 < self.n_comps()
                            implies #[trigger] self.comps@[c2].kind == mid.comps@[c2].kind by {
                            assert(self.comps@[c2].kind == pre_iter.comps@[c2].kind);
                        }
                        assert forall|c2: int| 0 <= c2 < self.n_comps()
                            implies #[trigger] self.comps@[c2].deps == mid.comps@[c2].deps by {
                            assert(self.comps@[c2].deps == pre_iter.comps@[c2].deps);
                        }
                        assert forall|c2: int| 0 <= c2 < self.n_comps()
                            implies #[trigger] self.comps@[c2].dirty == mid.comps@[c2].dirty
                                && self.comps@[c2].failed == mid.comps@[c2].failed
                                && self.comps@[c2].disposed == mid.comps@[c2].disposed by {
                            assert(self.comps@[c2].dirty == pre_iter.comps@[c2].dirty);
                            assert(self.comps@[c2].failed == pre_iter.comps@[c2].failed);
                            assert(self.comps@[c2].disposed == pre_iter.comps@[c2].disposed);
                        }
                    }
                },
            }
            k = k + 1;
        }
        proof {
            assert(dsq.subrange(0, n_deps as int) =~= dsq);
            self.lemma_dispose_wf(*old(self), mid, dsq, c);
            assert(self.deps_of(c as int) =~= Set::<SourceId>::empty());
            assert(self.comps@[c as int].deps@.len() == 0) by {
                assert(self.comps@[c as int].deps == mid.comps@[c as int].deps);
            }
            assert forall|c2: int| 0 <= c2 < self.n_comps()
                implies #[trigger] self.comps@[c2].disposed
                    == (old(self).comps@[c2].disposed || (c2 == c as int && mark)) by {
                assert(self.comps@[c2].dirty == mid.comps@[c2].dirty);
                if c2 != c as int {
                    assert(mid.comps@[c2] == old(self).comps@[c2]);
                }
            }
            assert forall|i: int| 0 <= i < old(self).n_cells()
                implies #[trigger] self.cells@[i].value == old(self).cells@[i].value
                    && self.cells@[i].version == old(self).cells@[i].version by {
                assert(self.cells@[i].value == mid.cells@[i].value);
                assert(mid.cells@[i] == old(self).cells@[i]);
            }
            assert forall|c2: int| 0 <= c2 < old(self).n_comps()
                implies #[trigger] self.comps@[c2].body == old(self).comps@[c2].body by {
                assert(self.comps@[c2].body == mid.comps@[c2].body);
                if c2 != c as int {
                    assert(mid.comps@[c2] == old(self).comps@[c2]);
                }
            }
            assert forall|c2: int| 0 <= c2 < old(self).n_comps()
                implies #[trigger] self.comps@[c2].kind == old(self).comps@[c2].kind by {
                assert(self.comps@[c2].kind == mid.comps@[c2].kind);
                if c2 != c as int {
                    assert(mid.comps@[c2] == old(self).comps@[c2]);
                }
            }
            assert forall|c2: int| 0 <= c2 < old(self).n_comps()
                implies #[trigger] self.comps@[c2].dirty == old(self).comps@[c2].dirty by {
                assert(self.comps@[c2].dirty == mid.comps@[c2].dirty);
                if c2 != c as int {
                    assert(mid.comps@[c2] == old(self).comps@[c2]);
                }
            }
            assert forall|c2: int| 0 <= c2 < old(self).n_comps()
                implies #[trigger] self.comps@[c2].failed
                    == old(self).comps@[c2].failed by {
                assert(self.comps@[c2].dirty == mid.comps@[c2].dirty);
                assert(self.comps@[c2].failed == mid.comps@[c2].failed);
                if c2 != c as int {
                    assert(mid.comps@[c2] == old(self).comps@[c2]);
                }
            }
            assert forall|c2: int| 0 <= c2 < old(self).n_comps() && c2 != c as int
                implies #[trigger] self.comps@[c2].deps == old(self).comps@[c2].deps by {
                assert(self.comps@[c2].deps == mid.comps@[c2].deps);
                assert(mid.comps@[c2] == old(self).comps@[c2]);
            }
            assert forall|s: SourceId, x: usize| old(self).src_valid(s)
                implies (#[trigger] self.subs_of(s).contains(x)
                    <==> (old(self).subs_of(s).contains(x) && x != c)) by {
                match s {
                    SourceId::Cell(i) => {
                        assert(mid.cells@[i as int] == old(self).cells@[i as int]);
                        if x == c {
                            assert(old(self).cells@[i as int].subs@.contains(c)
                                <==> old(self).deps_of(c as int).contains(
                                    SourceId::Cell(i)));
                        }
                    },
                    SourceId::Comp(j) => {
                        if j as int != c as int {
                            assert(mid.comps@[j as int] == old(self).comps@[j as int]);
                        } else {
                            assert(mid.comps@[j as int].subs
                                == old(self).comps@[j as int].subs);
                        }
                        if x == c {
                            assert(old(self).comps@[j as int].subs@.contains(c)
                                <==> old(self).deps_of(c as int).contains(
                                    SourceId::Comp(j)));
                        }
                    },
                }
            }
            Self::lemma_detached_intro(*old(self), *self, c, mark);
        }
    }

    /// Folds the itemized facts of one detachment into [`Engine::detached`].
    proof fn lemma_detached_intro(pre: Engine, post: Engine, c: usize, mark: bool)
        requires
            post.n_cells() == pre.n_cells(),
            post.n_comps() == pre.n_comps(),
            forall|i: int| 0 <= i < pre.n_cells()
                ==> #[trigger] post.cells@[i].value == pre.cells@[i].value
                    && post.cells@[i].version == pre.cells@[i].version,
            forall|c2: int| 0 <= c2 < pre.n_comps()
                ==> #[trigger] post.comps@[c2].body == pre.comps@[c2].body,
            forall|c2: int| 0 <= c2 < pre.n_comps()
                ==> #[trigger] post.comps@[c2].kind == pre.comps@[c2].kind,
            forall|c2: int| 0 <= c2 < pre.n_comps()
                ==> #[trigger] post.comps@[c2].dirty == pre.comps@[c2].dirty,
            forall|c2: int| 0 <= c2 < pre.n_comps()
                ==> #[trigger] post.comps@[c2].failed == pre.comps@[c2].failed,
            forall|c2: int| 0 <= c2 < pre.n_comps()
                ==> (#[trigger] post.comps@[c2].disposed
                    == (pre.comps@[c2].disposed || (c2 == c as int && mark))),
            post.deps_of(c as int) == Set::<SourceId>::empty(),
            post.comps@[c as int].deps@.len() == 0,
            forall|c2: int| 0 <= c2 < pre.n_comps() && c2 != c as int
                ==> #[trigger] post.comps@[c2].deps == pre.comps@[c2].deps,
            forall|s: SourceId, x: usize| pre.src_valid(s)
                ==> (#[trigger] post.subs_of(s).contains(x)
                    <==> (pre.subs_of(s).contains(x) && x != c)),
        ensures
            Engine::detached(pre, post, c, mark),
    {
    }

    /// Disposes computation `c`: it is unsubscribed from every source it
    /// depends on, its dependency record is cleared, and it will never run
    /// again — a dirty mark it still carries is discarded, unexecuted, by
    /// the next flush. Disposing an already-disposed computation is
    /// permitted and does nothing. Fails with `TrackingViolation` exactly
    /// when `c` is unknown.
    pub fn dispose(&mut self, c: usize) -> (r: Result<(), EngineError>)
        requires
            old(self).wf(),
        ensures
            final(self).wf(),
            (c as int) >= old(self).n_comps() ==> r == Err::<(), EngineError>(
                EngineError::TrackingViolation) && *final(self) == *old(self),
            (c as int) < old(self).n_comps() ==> r == Ok::<(), EngineError>(())
                && Engine::disposed_of(*old(self), *final(self), c),
    {
        if c >= self.comps.len() {
            return Err(EngineError::TrackingViolation);
        }
        self.detach(c, true);
        Ok(())
    }

    /// One disposal as [`Engine::dispose`] performs it: computation `c` is
    /// marked disposed, its dependency record is emptied, it leaves every
    /// subscriber list it was on, and nothing else moves.
    pub open spec fn disposed_of(pre: Engine, post: Engine, c: usize) -> bool {
        Engine::detached(pre, post, c, true)
    }

    /// Computation `c` detached from the graph: its dependency record is
    /// emptied, it leaves every subscriber list it was on, it is marked
    /// disposed when `mark` holds, and nothing else moves.
    pub open spec fn detached(pre: Engine, post: Engine, c: usize, mark: bool) -> bool {
        &&& post.n_cells() == pre.n_cells()
        &&& post.n_comps() == pre.n_comps()
        &&& forall|i: int| 0 <= i < pre.n_cells()
            ==> #[trigger] post.cells@[i].value == pre.cells@[i].value
                && post.cells@[i].version == pre.cells@[i].version
        &&& forall|c2: int| 0 <= c2 < pre.n_comps()
            ==> #[trigger] post.comps@[c2].body == pre.comps@[c2].body
        &&& forall|c2: int| 0 <= c2 < pre.n_comps()
            ==> #[trigger] post.comps@[c2].kind == pre.comps@[c2].kind
        &&& forall|c2: int| 0 <= c2 < pre.n_comps()
            ==> #[trigger] post.comps@[c2].dirty == pre.comps@[c2].dirty
        &&& forall|c2: int| 0 <= c2 < pre.n_comps()
            ==> #[trigger] post.comps@[c2].failed == pre.comps@[c2].failed
        &&& forall|c2: int| 0 <= c2 < pre.n_comps()
            ==> (#[trigger] post.comps@[c2].disposed
                == (pre.comps@[c2].disposed || (c2 == c as int && mark)))
        &&& post.deps_of(c as int) == Set::<SourceId>::empty()
        &&& post.comps@[c as int].deps@.len() == 0
        &&& forall|c2: int| 0 <= c2 < pre.n_comps() && c2 != c as int
            ==> #[trigger] post.comps@[c2].deps == pre.comps@[c2].deps
        &&& forall|s: SourceId, x: usize| pre.src_valid(s)
            ==> (#[trigger] post.subs_of(s).contains(x)
                <==> (pre.subs_of(s).contains(x) && x != c))
    }

    /// Well-formedness after `dispose` has unsubscribed computation `c`.
    proof fn lemma_dispose_wf(self, g0: Engine, mid: Engine, dsq: Seq<SourceId>, c: usize)
        requires
            g0.wf(),
            (c as int) < g0.n_comps(),
            dsq == g0.comps@[c as int].deps@,
            mid.n_cells() == g0.n_cells(),
            mid.n_comps() == g0.n_comps(),
            mid.comps@[c as int].deps@.len() == 0,
            forall|i: int| 0 <= i < mid.n_cells()
                ==> #[trigger] mid.cells@[i] == g0.cells@[i],
            forall|c2: int| 0 <= c2 < mid.n_comps() && c2 != c as int
                ==> #[trigger] mid.comps@[c2] == g0.comps@[c2],
            mid.comps@[c as int].body == g0.comps@[c as int].body,
            mid.comps@[c as int].kind == g0.comps@[c as int].kind,
            mid.comps@[c as int].subs == g0.comps@[c as int].subs,
            self.n_cells() == mid.n_cells(),
            self.n_comps() == mid.n_comps(),
            forall|c2: int| 0 <= c2 < self.n_comps()
                ==> #[trigger] self.comps@[c2].body == mid.comps@[c2].body,
            forall|c2: int| 0 <= c2 < self.n_comps()
                ==> #[trigger] self.comps@[c2].kind == mid.comps@[c2].kind,
            forall|c2: int| 0 <= c2 < self.n_comps()
                ==> #[trigger] self.comps@[c2].deps == mid.comps@[c2].deps,
            forall|i: usize| (i as int) < self.n_cells()
                ==> Engine::nodup(#[trigger] self.cells@[i as int].subs@),
            forall|c2: usize| (c2 as int) < self.n_comps()
                ==> Engine::nodup(#[trigger] self.comps@[c2 as int].subs@),
            forall|i: usize, x: usize| (i as int) < self.n_cells()
                ==> (#[trigger] self.cells@[i as int].subs@.contains(x) <==> (
                    mid.cells@[i as int].subs@.contains(x)
                    && !(x == c && dsq.contains(SourceId::Cell(i))))),
            forall|c2: usize, x: usize| (c2 as int) < self.n_comps()
                ==> (#[trigger] self.comps@[c2 as int].subs@.contains(x) <==> (
                    mid.comps@[c2 as int].subs@.contains(x)
                    && !(x == c && dsq.contains(SourceId::Comp(c2))))),
        ensures
            self.wf(),
    {
        Self::lemma_vec_len_bound(self.cells);
        Self::lemma_vec_len_bound(self.comps);
        assert forall|c2: int| 0 <= c2 < self.n_comps()
            implies self.body_ok(#[trigger] self.comps@[c2].body, c2) by {
            assert(g0.body_ok(g0.comps@[c2].body, c2));
            assert forall|j: int| 0 <= j < g0.n_comps()
                implies (#[trigger] self.is_derived(j) <==> g0.is_derived(j)) by {
                assert(self.comps@[j].kind == mid.comps@[j].kind);
            }
            g0.lemma_body_ok_grow(g0.comps@[c2].body, c2, self);
        }
        assert forall|c2: int| 0 <= c2 < self.n_comps()
            implies Engine::nodup(#[trigger] self.comps@[c2].deps@) by {
            if c2 != c as int {
                assert(self.comps@[c2].deps == g0.comps@[c2].deps);
                assert(Engine::nodup(g0.comps@[c2].deps@));
            } else {
                assert(self.comps@[c2].deps@.len() == 0);
            }
        }
        assert forall|c2: int, s: SourceId| 0 <= c2 < self.n_comps()
            && #[trigger] self.deps_of(c2).contains(s)
            implies self.src_valid(s) && (s matches SourceId::Comp(j) ==> j < c2) by {
            assert(c2 != c as int);
            assert(self.comps@[c2].deps == g0.comps@[c2].deps);
            assert(g0.deps_of(c2).contains(s));
            assert(g0.src_valid(s));
        }
        assert forall|i: int, x: usize| 0 <= i < self.n_cells()
            && #[trigger] self.cells@[i].subs@.contains(x)
            implies x < self.n_comps() by {
            assert(mid.cells@[i].subs@.contains(x));
            assert(g0.cells@[i].subs@.contains(x));
        }
        assert forall|j: int, x: usize| 0 <= j < self.n_comps()
            && #[trigger] self.comps@[j].subs@.contains(x)
            implies x < self.n_comps() by {
            assert(mid.comps@[j].subs@.contains(x));
            if j != c as int {
                assert(g0.comps@[j].subs@.contains(x));
            } else {
                assert(mid.comps@[j].subs == g0.comps@[j].subs);
                assert(g0.comps@[j].subs@.contains(x));
            }
        }
        assert forall|i: int, x: usize| 0 <= i < self.n_cells() && x < self.n_comps()
            implies (#[trigger] self.cells@[i].subs@.contains(x)
                <==> #[trigger] self.deps_of(x as int).contains(
                    SourceId::Cell(i as usize))) by {
            assert(mid.cells@[i] == g0.cells@[i]);
            assert(g0.cells@[i].subs@.contains(x)
                <==> g0.deps_of(x as int).contains(SourceId::Cell(i as usize)));
            if x == c {
                assert(self.deps_of(x as int) =~= Set::<SourceId>::empty());
                if g0.deps_of(c as int).contains(SourceId::Cell(i as usize)) {
                    assert(dsq.contains(SourceId::Cell(i as usize)));
                }
            } else {
                assert(self.comps@[x as int].deps == g0.comps@[x as int].deps);
            }
        }
        assert forall|j: int, x: usize| 0 <= j < self.n_comps() && x < self.n_comps()
            implies (#[trigger] self.comps@[j].subs@.contains(x)
                <==> #[trigger] self.deps_of(x as int).contains(
                    SourceId::Comp(j as usize))) by {
            if j != c as int {
                assert(mid.comps@[j] == g0.comps@[j]);
            } else {
                assert(mid.comps@[j].subs == g0.comps@[j].subs);
            }
            assert(g0.comps@[j].subs@.contains(x)
                <==> g0.deps_of(x as int).contains(SourceId::Comp(j as usize)));
            if x == c {
                assert(self.deps_of(x as int) =~= Set::<SourceId>::empty());
                if g0.deps_of(c as int).contains(SourceId::Comp(j as usize)) {
                    assert(dsq.contains(SourceId::Comp(j as usize)));
                }
            } else {
                assert(self.comps@[x as int].deps == g0.comps@[x as int].deps);
            }
        }
    }

    /// A body that is well formed at one bound is well formed at any larger
    /// bound.
    proof fn lemma_body_ok_mono(self, e: Expr, b1: int, b2: int)
        requires
            self.body_ok(e, b1),
            b1 <= b2,
        ensures
            self.body_ok(e, b2),
        decreases e,
    {
        match e {
            Expr::Const(_) => {},
            Expr::Read(_) => {},
            Expr::Plus(a, b) => {
                self.lemma_body_ok_mono(*a, b1, b2);
                self.lemma_body_ok_mono(*b, b1, b2);
            },
            Expr::If(c, t, f) => {
                self.lemma_body_ok_mono(*c, b1, b2);
                self.lemma_body_ok_mono(*t, b1, b2);
                self.lemma_body_ok_mono(*f, b1, b2);
            },
        }
    }

    /// Replaces the empty dependency record of computation `c` with `reads`
    /// and subscribes `c` to each of those sources.
    #[verifier::rlimit(100)]
    #[verifier::spinoff_prover]
    fn set_deps(&mut self, c: usize, reads: Vec<SourceId>)
        requires
            old(self).wf(),
            (c as int) < old(self).n_comps(),
            old(self).comps@[c as int].deps@.len() == 0,
            Engine::nodup(reads@),
            forall|s: SourceId| reads@.contains(s) ==> old(self).src_valid(s)
                && (s matches SourceId::Comp(j) ==> j < c),
        ensures
            final(self).wf(),
            final(self).n_cells() == old(self).n_cells(),
            final(self).n_comps() == old(self).n_comps(),
            forall|i: int| 0 <= i < old(self).n_cells()
                ==> #[trigger] final(self).cells@[i].value == old(self).cells@[i].value
                    && final(self).cells@[i].version == old(self).cells@[i].version,
            forall|c2: int| 0 <= c2 < old(self).n_comps()
                ==> #[trigger] final(self).comps@[c2].body == old(self).comps@[c2].body,
            forall|c2: int| 0 <= c2 < old(self).n_comps()
                ==> #[trigger] final(self).comps@[c2].kind == old(self).comps@[c2].kind,
            forall|c2: int| 0 <= c2 < old(self).n_comps()
                ==> #[trigger] final(self).comps@[c2].dirty == old(self).comps@[c2].dirty,
            forall|c2: int| 0 <= c2 < old(self).n_comps()
                ==> #[trigger] final(self).comps@[c2].failed == old(self).comps@[c2].failed,
            forall|c2: int| 0 <= c2 < old(self).n_comps()
                ==> #[trigger] final(self).comps@[c2].disposed
                    == old(self).comps@[c2].disposed,
            forall|c2: int| 0 <= c2 < old(self).n_comps() && c2 != c as int
                ==> #[trigger] final(self).comps@[c2].deps == old(self).comps@[c2].deps,
            final(self).deps_of(c as int) == reads@.to_set(),
            forall|s: SourceId, x: usize| old(self).src_valid(s)
                ==> (#[trigger] final(self).subs_of(s).contains(x)
                    <==> (old(self).subs_of(s).contains(x)
                        || (x == c && reads@.contains(s)))),
    {
        let ghost g0 = *old(self);
        self.comps[c].deps = reads;
        let ghost mid = *self;
        let ghost ds = mid.comps@[c as int].deps@;
        proof {
            assert forall|s: SourceId| g0.src_valid(s)
                implies !(#[trigger] g0.subs_of(s).contains(c)) by {
                match s {
                    SourceId::Cell(i) => {
                        if g0.cells@[i as int].subs@.contains(c) {
                            assert(g0.deps_of(c as int).contains(SourceId::Cell(i)));
                        }
                    },
                    SourceId::Comp(j) => {
                        if g0.comps@[j as int].subs@.contains(c) {
                            assert(g0.deps_of(c as int).contains(SourceId::Comp(j)));
                        }
                    },
                }
            }
        }
        let n_deps = self.comps[c].deps.len();
        let mut k: usize = 0;
        while k < n_deps
            invariant
                g0.wf(),
                g0 == *old(self),
                (c as int) < g0.n_comps(),
                ds == reads@,
                mid.comps@ == g0.comps@.update(c as int, mid.comps@[c as int]),
                mid.cells@ == g0.cells@,
                mid.comps@[c as int].deps@ == ds,
                mid.comps@[c as int].body == g0.comps@[c as int].body,
                mid.comps@[c as int].kind == g0.comps@[c as int].kind,
                mid.comps@[c as int].subs == g0.comps@[c as int].subs,
                mid.comps@[c as int].dirty == g0.comps@[c as int].dirty,
                mid.comps@[c as int].failed == g0.comps@[c as int].failed,
                mid.comps@[c as int].disposed == g0.comps@[c as int].disposed,
                Engine::nodup(ds),
                n_deps == ds.len(),
                k <= n_deps,
                forall|s: SourceId| ds.contains(s) ==> g0.src_valid(s)
                    && (s matches SourceId::Comp(j) ==> j < c),
                forall|s: SourceId| g0.src_valid(s) ==> !(#[trigger] g0.subs_of(s).contains(
                    c)),
                self.n_cells() == g0.n_cells(),
                self.n_comps() == g0.n_comps(),
                forall|i: int| 0 <= i < self.n_cells()
                    ==> #[trigger] self.cells@[i].value == mid.cells@[i].value
                        && self.cells@[i].version == mid.cells@[i].version,
                forall|i: usize| (i as int) < self.n_cells()
                    ==> #[trigger] self.cells@[i as int].subs@ == (
                        if ds.subrange(0, k as int).contains(SourceId::Cell(i)) {
                            mid.cells@[i as int].subs@.push(c)
                        } else {
                            mid.cells@[i as int].subs@
                        }),
                forall|c2: int| 0 <= c2 < self.n_comps()
                    ==> #[trigger] self.comps@[c2].body == mid.comps@[c2].body,
                forall|c2: int| 0 <= c2 < self.n_comps()
                    ==> #[trigger] self.comps@[c2].kind == mid.comps@[c2].kind,
                forall|c2: int| 0 <= c2 < self.n_comps()
                    ==> #[trigger] self.comps@[c2].deps == mid.comps@[c2].deps,
                forall|c2: int| 0 <= c2 < self.n_comps()
                    ==> #[trigger] self.comps@[c2].dirty == mid.comps@[c2].dirty
                        && self.comps@[c2].failed == mid.comps@[c2].failed
                        && self.comps@[c2].disposed == mid.comps@[c2].disposed,
                forall|c2: usize| (c2 as int) < self.n_comps()
                    ==> #[trigger] self.comps@[c2 as int].subs@ == (
                        if ds.subrange(0, k as int).contains(SourceId::Comp(c2)) {
                            mid.comps@[c2 as int].subs@.push(c)
                        } else {
                            mid.comps@[c2 as int].subs@
                        }),
            decreases n_deps - k,
        {
            let s = self.comps[c].deps[k];
            proof {
                assert(ds[k as int] == s);
                assert(ds.contains(s));
                assert(forall|m: int| 0 <= m < k ==> ds[m] != s);
                assert(!ds.subrange(0, k as int).contains(s));
                assert(ds.subrange(0, k as int + 1) =~= ds.subrange(0, k as int).push(s));
            }
            let ghost pre_iter = *self;
            match s {
                SourceId::Cell(i) => {
                    self.cells[i].subs.push(c);
                    proof {
                        assert forall|i2: usize| (i2 as int) < self.n_cells()
                            implies #[trigger] self.cells@[i2 as int].subs@ == (
                                if ds.subrange(0, k as int + 1).contains(
                                    SourceId::Cell(i2)) {
                                    mid.cells@[i2 as int].subs@.push(c)
                                } else {
                                    mid.cells@[i2 as int].subs@
                                }) by {
                            Self::lemma_push_contains(
                                ds.subrange(0, k as int), s, SourceId::Cell(i2));
                            if i2 != i {
                                assert(self.cells@[i2 as int] == pre_iter.cells@[i2 as int]);
                            } else {
                                assert(self.cells@[i as int].subs@
                                    == pre_iter.cells@[i as int].subs@.push(c));
                                assert(ds.subrange(0, k as int + 1).contains(s));
                            }
                        }
                        assert forall|c2: usize| (c2 as int) < self.n_comps()
                            implies #[trigger] self.comps@[c2 as int].subs@ == (
                                if ds.subrange(0, k as int + 1).contains(
                                    SourceId::Comp(c2)) {
                                    mid.comps@[c2 as int].subs@.push(c)
                                } else {
                                    mid.comps@[c2 as int].subs@
                                }) by {
                            assert(self.comps@[c2 as int].subs@
                                == pre_iter.comps@[c2 as int].subs@);
                            Self::lemma_push_contains(
                                ds.subrange(0, k as int), s, SourceId::Comp(c2));
                        }
                    }
                },
                SourceId::Comp(j) => {
                    self.comps[j].subs.push(c);
                    proof {
                        assert forall|i2: usize| (i2 as int) < self.n_cells()
                            implies #[trigger] self.cells@[i2 as int].subs@ == (
                                if ds.subrange(0, k as int + 1).contains(
                                    SourceId::Cell(i2)) {
                                    mid.cells@[i2 as int].subs@.push(c)
                                } else {
                                    mid.cells@[i2 as int].subs@
                                }) by {
                            assert(self.cells@[i2 as int] == pre_iter.cells@[i2 as int]);
                            Self::lemma_push_contains(
                                ds.subrange(0, k as int), s, SourceId::Cell(i2));
                        }
                        assert forall|c2: usize| (c2 as int) < self.n_comps()
                            implies #[trigger] self.comps@[c2 as int].subs@ == (
                                if ds.subrange(0, k as int + 1).contains(
                                    SourceId::Comp(c2)) {
                                    mid.comps@[c2 as int].subs@.push(c)
                                } else {
                                    mid.comps@[c2 as int].subs@
                                }) by {
                            Self::lemma_push_contains(
                                ds.subrange(0, k as int), s, SourceId::Comp(c2));
                            if c2 != j {
                                assert(self.comps@[c2 as int].subs@
                                    == pre_iter.comps@[c2 as int].subs@);
                            } else {
                                assert(self.comps@[j as int].subs@
                                    == pre_iter.comps@[j as int].subs@.push(c));
                                assert(ds.subrange(0, k as int + 1).contains(s));
                            }
                        }
                        assert forall|c2: int| 0 <= c2 < self.n_comps()
                            implies #[trigger] self.comps@[c2].body == mid.comps@[c2].body by {
                            assert(self.comps@[c2].body == pre_iter.comps@[c2].body);
                        }
                        assert forall|c2: int| 0 <= c2 < self.n_comps()
                            implies #[trigger] self.comps@[c2].kind == mid.comps@[c2].kind by {
                            assert(self.comps@[c2].kind == pre_iter.comps@[c2].kind);
                        }
                        assert forall|c2: int| 0 <= c2 < self.n_comps()
                            implies #[trigger] self.comps@[c2].deps == mid.comps@[c2].deps by {
                            assert(self.comps@[c2].deps == pre_iter.comps@[c2].deps);
                        }
                        assert forall|c2: int| 0 <= c2 < self.n_comps()
                            implies #[trigger] self.comps@[c2].dirty == mid.comps@[c2].dirty
                                && self.comps@[c2].failed == mid.comps@[c2].failed
                                && self.comps@[c2].disposed
                                    == mid.comps@[c2].disposed by {
                            assert(self.comps@[c2].dirty == pre_iter.comps@[c2].dirty);
                            assert(self.comps@[c2].failed == pre_iter.comps@[c2].failed);
                            assert(self.comps@[c2].disposed == pre_iter.comps@[c2].disposed);
                        }
                    }
                },
            }
            k = k + 1;
        }
        proof {
            assert(ds.subrange(0, n_deps as int) =~= ds);
            self.lemma_set_deps_wf(g0, mid, ds, c);
            assert forall|i: int| 0 <= i < g0.n_cells()
                implies #[trigger] self.cells@[i].value == g0.cells@[i].value
                    && self.cells@[i].version == g0.cells@[i].version by {
                assert(self.cells@[i].value == mid.cells@[i].value);
                assert(mid.cells@[i] == g0.cells@[i]);
            }
            assert forall|c2: int| 0 <= c2 < g0.n_comps()
                implies #[trigger] self.comps@[c2].body == g0.comps@[c2].body by {
                assert(self.comps@[c2].body == mid.comps@[c2].body);
                if c2 != c as int {
                    assert(mid.comps@[c2] == g0.comps@[c2]);
                }
            }
            assert forall|c2: int| 0 <= c2 < g0.n_comps()
                implies #[trigger] self.comps@[c2].kind == g0.comps@[c2].kind by {
                assert(self.comps@[c2].kind == mid.comps@[c2].kind);
                if c2 != c as int {
                    assert(mid.comps@[c2] == g0.comps@[c2]);
                }
            }
            assert forall|c2: int| 0 <= c2 < g0.n_comps()
                implies #[trigger] self.comps@[c2].dirty == g0.comps@[c2].dirty by {
                assert(self.comps@[c2].dirty == mid.comps@[c2].dirty);
                if c2 != c as int {
                    assert(mid.comps@[c2] == g0.comps@[c2]);
                }
            }
            assert forall|c2: int| 0 <= c2 < g0.n_comps()
                implies #[trigger] self.comps@[c2].failed == g0.comps@[c2].failed by {
                assert(self.comps@[c2].dirty == mid.comps@[c2].dirty);
                if c2 != c as int {
                    assert(mid.comps@[c2] == g0.comps@[c2]);
                }
            }
            assert forall|c2: int| 0 <= c2 < g0.n_comps()
                implies #[trigger] self.comps@[c2].disposed
                    == g0.comps@[c2].disposed by {
                assert(self.comps@[c2].dirty == mid.comps@[c2].dirty);
                if c2 != c as int {
                    assert(mid.comps@[c2] == g0.comps@[c2]);
                }
            }
            assert forall|c2: int| 0 <= c2 < g0.n_comps() && c2 != c as int
                implies #[trigger] self.comps@[c2].deps == g0.comps@[c2].deps by {
                assert(self.comps@[c2].deps == mid.comps@[c2].deps);
                assert(mid.comps@[c2] == g0.comps@[c2]);
            }
            assert(self.deps_of(c as int) == reads@.to_set()) by {
                assert(self.comps@[c as int].deps == mid.comps@[c as int].deps);
            }
            assert forall|s: SourceId, x: usize| g0.src_valid(s)
                implies (#[trigger] self.subs_of(s).contains(x)
                    <==> (g0.subs_of(s).contains(x) || (x == c && reads@.contains(s)))) by {
                match s {
                    SourceId::Cell(i) => {
                        assert(mid.cells@[i as int] == g0.cells@[i as int]);
                        Self::lemma_push_contains(mid.cells@[i as int].subs@, c, x);
                    },
                    SourceId::Comp(j) => {
                        if j as int != c as int {
                            assert(mid.comps@[j as int] == g0.comps@[j as int]);
                        } else {
                            assert(mid.comps@[j as int].subs == g0.comps@[j as int].subs);
                        }
                        Self::lemma_push_contains(mid.comps@[j as int].subs@, c, x);
                    },
                }
            }
        }
    }

    /// Well-formedness after `set_deps` has subscribed computation `c` to
    /// its new dependency record `ds`.
    proof fn lemma_set_deps_wf(self, g0: Engine, mid: Engine, ds: Seq<SourceId>, c: usize)
        requires
            g0.wf(),
            (c as int) < g0.n_comps(),
            g0.comps@[c as int].deps@.len() == 0,
            mid.comps@ == g0.comps@.update(c as int, mid.comps@[c as int]),
            mid.cells@ == g0.cells@,
            mid.comps@[c as int].deps@ == ds,
            mid.comps@[c as int].body == g0.comps@[c as int].body,
            mid.comps@[c as int].kind == g0.comps@[c as int].kind,
            mid.comps@[c as int].subs == g0.comps@[c as int].subs,
            Engine::nodup(ds),
            forall|s: SourceId| ds.contains(s) ==> g0.src_valid(s)
                && (s matches SourceId::Comp(j) ==> j < c),
            forall|s: SourceId| g0.src_valid(s) ==> !(#[trigger] g0.subs_of(s).contains(c)),
            self.n_cells() == mid.n_cells(),
            self.n_comps() == mid.n_comps(),
            forall|i: usize| (i as int) < self.n_cells()
                ==> #[trigger] self.cells@[i as int].subs@ == (
                    if ds.contains(SourceId::Cell(i)) {
                        mid.cells@[i as int].subs@.push(c)
                    } else {
                        mid.cells@[i as int].subs@
                    }),
            forall|c2: int| 0 <= c2 < self.n_comps()
                ==> #[trigger] self.comps@[c2].body == mid.comps@[c2].body,
            forall|c2: int| 0 <= c2 < self.n_comps()
                ==> #[trigger] self.comps@[c2].kind == mid.comps@[c2].kind,
            forall|c2: int| 0 <= c2 < self.n_comps()
                ==> #[trigger] self.comps@[c2].deps == mid.comps@[c2].deps,
            forall|c2: usize| (c2 as int) < self.n_comps()
                ==> #[trigger] self.comps@[c2 as int].subs@ == (
                    if ds.contains(SourceId::Comp(c2)) {
                        mid.comps@[c2 as int].subs@.push(c)
                    } else {
                        mid.comps@[c2 as int].subs@
                    }),
        ensures
            self.wf(),
    {
        let n = self.n_comps();
        Self::lemma_vec_len_bound(self.cells);
        Self::lemma_vec_len_bound(self.comps);
        assert forall|j: int| 0 <= j < g0.n_comps()
            implies (#[trigger] self.is_derived(j) <==> g0.is_derived(j)) by {
            assert(self.comps@[j].kind == mid.comps@[j].kind);
            if j != c as int {
                assert(mid.comps@[j] == g0.comps@[j]);
            }
        }
        assert forall|c2: int| 0 <= c2 < n
            implies self.body_ok(#[trigger] self.comps@[c2].body, c2) by {
            if c2 != c as int {
                assert(mid.comps@[c2] == g0.comps@[c2]);
            }
            assert(g0.body_ok(g0.comps@[c2].body, c2));
            g0.lemma_body_ok_grow(g0.comps@[c2].body, c2, self);
        }
        assert forall|c2: int| 0 <= c2 < n
            implies Engine::nodup(#[trigger] self.comps@[c2].deps@) by {
            if c2 != c as int {
                assert(mid.comps@[c2] == g0.comps@[c2]);
                assert(Engine::nodup(g0.comps@[c2].deps@));
            }
        }
        assert forall|c2: int, s: SourceId| 0 <= c2 < n
            && #[trigger] self.deps_of(c2).contains(s)
            implies self.src_valid(s) && (s matches SourceId::Comp(j) ==> j < c2) by {
            if c2 != c as int {
                assert(mid.comps@[c2] == g0.comps@[c2]);
                assert(g0.deps_of(c2).contains(s));
                assert(g0.src_valid(s));
            } else {
                assert(ds.contains(s));
                assert(g0.src_valid(s));
            }
        }
        assert forall|i: int| 0 <= i < self.n_cells()
            implies Engine::nodup(#[trigger] self.cells@[i].subs@) by {
            assert(mid.cells@[i] == g0.cells@[i]);
            assert(Engine::nodup(g0.cells@[i].subs@));
            if ds.contains(SourceId::Cell(i as usize)) {
                assert(!g0.cells@[i].subs@.contains(c)) by {
                    assert(g0.src_valid(SourceId::Cell(i as usize)));
                    assert(!g0.subs_of(SourceId::Cell(i as usize)).contains(c));
                }
                assert forall|k1: int, k2: int|
                    0 <= k1 < k2 < self.cells@[i].subs@.len()
                    implies self.cells@[i].subs@[k1] != self.cells@[i].subs@[k2] by {
                    if k2 == self.cells@[i].subs@.len() - 1 {
                        assert(g0.cells@[i].subs@.contains(g0.cells@[i].subs@[k1]));
                    }
                }
            }
        }
        assert forall|c2: int| 0 <= c2 < n
            implies Engine::nodup(#[trigger] self.comps@[c2].subs@) by {
            let osubs = g0.comps@[c2].subs@;
            assert(mid.comps@[c2].subs == g0.comps@[c2].subs) by {
                if c2 != c as int {
                    assert(mid.comps@[c2] == g0.comps@[c2]);
                }
            }
            assert(Engine::nodup(osubs));
            if ds.contains(SourceId::Comp(c2 as usize)) {
                assert(!osubs.contains(c)) by {
                    assert(g0.src_valid(SourceId::Comp(c2 as usize)));
                    assert(!g0.subs_of(SourceId::Comp(c2 as usize)).contains(c));
                }
                assert forall|k1: int, k2: int|
                    0 <= k1 < k2 < self.comps@[c2].subs@.len()
                    implies self.comps@[c2].subs@[k1] != self.comps@[c2].subs@[k2] by {
                    if k2 == self.comps@[c2].subs@.len() - 1 {
                        assert(osubs.contains(osubs[k1]));
                    }
                }
            }
        }
        assert forall|i: int, x: usize| 0 <= i < self.n_cells()
            && #[trigger] self.cells@[i].subs@.contains(x)
            implies x < n by {
            assert(mid.cells@[i] == g0.cells@[i]);
            Self::lemma_push_contains(g0.cells@[i].subs@, c, x);
            if g0.cells@[i].subs@.contains(x) {
                assert(x < g0.n_comps());
            }
        }
        assert forall|j: int, x: usize| 0 <= j < n
            && #[trigger] self.comps@[j].subs@.contains(x)
            implies x < n by {
            assert(mid.comps@[j].subs == g0.comps@[j].subs) by {
                if j != c as int {
                    assert(mid.comps@[j] == g0.comps@[j]);
                }
            }
            Self::lemma_push_contains(g0.comps@[j].subs@, c, x);
            if g0.comps@[j].subs@.contains(x) {
                assert(x < g0.n_comps());
            }
        }
        assert forall|i: int, x: usize| 0 <= i < self.n_cells() && x < n
            implies (#[trigger] self.cells@[i].subs@.contains(x)
                <==> #[trigger] self.deps_of(x as int).contains(
                    SourceId::Cell(i as usize))) by {
            assert(mid.cells@[i] == g0.cells@[i]);
            Self::lemma_push_contains(g0.cells@[i].subs@, c, x);
            assert(g0.cells@[i].subs@.contains(x)
                <==> g0.deps_of(x as int).contains(SourceId::Cell(i as usize)));
            if x == c {
                assert(!g0.cells@[i].subs@.contains(c)) by {
                    assert(g0.src_valid(SourceId::Cell(i as usize)));
                    assert(!g0.subs_of(SourceId::Cell(i as usize)).contains(c));
                }
                assert(self.deps_of(c as int) == ds.to_set());
            } else {
                assert(self.comps@[x as int].deps == mid.comps@[x as int].deps);
                assert(mid.comps@[x as int] == g0.comps@[x as int]);
            }
        }
        assert forall|j: int, x: usize| 0 <= j < n && x < n
            implies (#[trigger] self.comps@[j].subs@.contains(x)
                <==> #[trigger] self.deps_of(x as int).contains(
                    SourceId::Comp(j as usize))) by {
            assert(mid.comps@[j].subs == g0.comps@[j].subs) by {
                if j != c as int {
                    assert(mid.comps@[j] == g0.comps@[j]);
                }
            }
            Self::lemma_push_contains(g0.comps@[j].subs@, c, x);
            assert(g0.comps@[j].subs@.contains(x)
                <==> g0.deps_of(x as int).contains(SourceId::Comp(j as usize)));
            if x == c {
                assert(!g0.comps@[j].subs@.contains(c)) by {
                    assert(g0.comps@[j].subs@.contains(c)
                        <==> g0.deps_of(c as int).contains(SourceId::Comp(j as usize)));
                }
                assert(self.deps_of(c as int) == ds.to_set());
            } else {
                assert(self.comps@[x as int].deps == mid.comps@[x as int].deps);
                assert(mid.comps@[x as int] == g0.comps@[x as int]);
            }
        }
    }

    /// Marks every subscriber of computation `c` dirty.
    fn mark_subs_dirty(&mut self, c: usize)
        requires
            old(self).wf(),
            (c as int) < old(self).n_comps(),
        ensures
            final(self).wf(),
            final(self).n_cells() == old(self).n_cells(),
            final(self).n_comps() == old(self).n_comps(),
            forall|i: int| 0 <= i < old(self).n_cells()
                ==> #[trigger] final(self).cells@[i] == old(self).cells@[i],
            forall|c2: int| 0 <= c2 < old(self).n_comps()
                ==> #[trigger] final(self).comps@[c2].body == old(self).comps@[c2].body,
            forall|c2: int| 0 <= c2 < old(self).n_comps()
                ==> #[trigger] final(self).comps@[c2].kind == old(self).comps@[c2].kind,
            forall|c2: int| 0 <= c2 < old(self).n_comps()
                ==> #[trigger] final(self).comps@[c2].deps == old(self).comps@[c2].deps,
            forall|c2: int| 0 <= c2 < old(self).n_comps()
                ==> #[trigger] final(self).comps@[c2].subs == old(self).comps@[c2].subs,
            forall|c2: int| 0 <= c2 < old(self).n_comps()
                ==> #[trigger] final(self).comps@[c2].failed
                    == old(self).comps@[c2].failed,
            forall|c2: int| 0 <= c2 < old(self).n_comps()
                ==> #[trigger] final(self).comps@[c2].disposed
                    == old(self).comps@[c2].disposed,
            forall|c2: usize| (c2 as int) < old(self).n_comps()
                ==> #[trigger] final(self).comps@[c2 as int].dirty
                    == (old(self).comps@[c2 as int].dirty
                        || old(self).comps@[c as int].subs@.contains(c2)),
    {
        let ghost g0 = *old(self);
        let n_subs = self.comps[c].subs.len();
        let mut k: usize = 0;
        while k < n_subs
            invariant
                g0.wf(),
                g0 == *old(self),
                (c as int) < g0.n_comps(),
                n_subs == g0.comps@[c as int].subs@.len(),
                k <= n_subs,
                self.cells@ == g0.cells@,
                self.n_comps() == g0.n_comps(),
                forall|c2: int| 0 <= c2 < self.n_comps()
                    ==> #[trigger] self.comps@[c2].body == g0.comps@[c2].body,
                forall|c2: int| 0 <= c2 < self.n_comps()
                    ==> #[trigger] self.comps@[c2].kind == g0.comps@[c2].kind,
                forall|c2: int| 0 <= c2 < self.n_comps()
                    ==> #[trigger] self.comps@[c2].deps == g0.comps@[c2].deps,
                forall|c2: int| 0 <= c2 < self.n_comps()
                    ==> #[trigger] self.comps@[c2].subs == g0.comps@[c2].subs,
                forall|c2: int| 0 <= c2 < self.n_comps()
                    ==> #[trigger] self.comps@[c2].failed == g0.comps@[c2].failed,
                forall|c2: int| 0 <= c2 < self.n_comps()
                    ==> #[trigger] self.comps@[c2].disposed == g0.comps@[c2].disposed,
                forall|c2: usize| (c2 as int) < self.n_comps()
                    ==> #[trigger] self.comps@[c2 as int].dirty == (
                        g0.comps@[c2 as int].dirty || exists|m: int| 0 <= m < k
                            && g0.comps@[c as int].subs@[m] == c2),
            decreases n_subs - k,
        {
            let ghost pre_iter = *self;
            let x = self.comps[c].subs[k];
            proof {
                assert(g0.comps@[c as int].subs@.contains(x));
                assert(x < g0.n_comps());
            }
            self.comps[x].dirty = true;
            proof {
                assert forall|c2: int| 0 <= c2 < self.n_comps()
                    implies #[trigger] self.comps@[c2].body == g0.comps@[c2].body by {
                    assert(self.comps@[c2].body == pre_iter.comps@[c2].body);
                }
                assert forall|c2: int| 0 <= c2 < self.n_comps()
                    implies #[trigger] self.comps@[c2].kind == g0.comps@[c2].kind by {
                    assert(self.comps@[c2].kind == pre_iter.comps@[c2].kind);
                }
                assert forall|c2: int| 0 <= c2 < self.n_comps()
                    implies #[trigger] self.comps@[c2].deps == g0.comps@[c2].deps by {
                    assert(self.comps@[c2].deps == pre_iter.comps@[c2].deps);
                }
                assert forall|c2: int| 0 <= c2 < self.n_comps()
                    implies #[trigger] self.comps@[c2].subs == g0.comps@[c2].subs by {
                    assert(self.comps@[c2].subs == pre_iter.comps@[c2].subs);
                }
                assert forall|c2: int| 0 <= c2 < self.n_comps()
                    implies #[trigger] self.comps@[c2].failed == g0.comps@[c2].failed by {
                    assert(self.comps@[c2].failed == pre_iter.comps@[c2].failed);
                }
                assert forall|c2: int| 0 <= c2 < self.n_comps()
                    implies #[trigger] self.comps@[c2].disposed
                        == g0.comps@[c2].disposed by {
                    assert(self.comps@[c2].disposed == pre_iter.comps@[c2].disposed);
                }
                assert forall|c2: usize| (c2 as int) < self.n_comps()
                    implies #[trigger] self.comps@[c2 as int].dirty == (
                        g0.comps@[c2 as int].dirty || exists|m: int| 0 <= m < k + 1
                            && g0.comps@[c as int].subs@[m] == c2) by {
                    if c2 == x {
                        assert(g0.comps@[c as int].subs@[k as int] == c2);
                        assert(self.comps@[c2 as int].dirty);
                    } else {
                        assert(self.comps@[c2 as int].dirty
                            == pre_iter.comps@[c2 as int].dirty);
                        if exists|m: int| 0 <= m < k + 1
                            && g0.comps@[c as int].subs@[m] == c2 {
                            let m = choose|m: int| 0 <= m < k + 1
                                && g0.comps@[c as int].subs@[m] == c2;
                            assert(m < k);
                        }
                    }
                }
            }
            k = k + 1;
        }
        proof {
            assert forall|c2: usize| (c2 as int) < self.n_comps()
                implies #[trigger] self.comps@[c2 as int].dirty == (
                    g0.comps@[c2 as int].dirty
                    || g0.comps@[c as int].subs@.contains(c2)) by {
                if g0.comps@[c as int].subs@.contains(c2) {
                    let m = choose|m: int| 0 <= m < g0.comps@[c as int].subs@.len()
                        && g0.comps@[c as int].subs@[m] == c2;
                    assert(self.comps@[c2 as int].dirty);
                } else {
                    if exists|m: int| 0 <= m < n_subs
                        && g0.comps@[c as int].subs@[m] == c2 {
                        let m = choose|m: int| 0 <= m < n_subs
                            && g0.comps@[c as int].subs@[m] == c2;
                        assert(g0.comps@[c as int].subs@.contains(c2));
                    }
                }
            }
            g0.lemma_wf_same_graph(*self);
        }
    }

    /// Computation `c` will be reached by the next flush: it is already
    /// marked dirty, or a live derived computation it subscribes to will be
    /// reached (re-running a derived computation marks its subscribers
    /// dirty). Because subscribers were created after the sources they read,
    /// the chain only moves forward in creation order.
    pub open spec fn dirty_at(self, c: int) -> bool
        decreases c, 0int, 0nat,
    {
        if 0 <= c < self.n_comps() {
            self.comps@[c].dirty || exists|d: int|
                0 <= d < c && self.is_derived(d) && !self.comps@[d].disposed
                    && #[trigger] self.comps@[d].subs@.contains(c as usize) && self.dirty_at(d)
        } else {
            false
        }
    }

    /// Computation `c` will re-run in the next flush.
    pub open spec fn runs_next(self, c: int) -> bool
        decreases c, 1int, 0nat,
    {
        self.dirty_at(c) && !self.comps@[c].disposed
    }

    /// The value the next flush computes for `c`'s body: the body evaluated
    /// with every derived computation created before `c` already holding its
    /// own next-flush outcome.
    pub open spec fn flush_val(self, c: int) -> Option<i64>
        decreases c, 3int, 0nat,
    {
        self.flush_eval(self.comps@[c].body, c)
    }

    /// Whether derived computation `d` is failed once the next flush has
    /// processed it.
    pub open spec fn flush_failed(self, d: int) -> bool
        decreases d, 4int, 0nat,
    {
        if self.runs_next(d) {
            self.flush_val(d) is None
        } else {
            self.comps@[d].failed
        }
    }

    /// The cache of derived computation `d` once the next flush has
    /// processed it: the freshly produced value, or — if it does not run or
    /// its run fails — the last good value it already holds.
    pub open spec fn flush_cache(self, d: int) -> i64
        decreases d, 4int, 0nat,
    {
        if self.is_derived(d) && self.runs_next(d) {
            match self.flush_val(d) {
                Some(v) => v,
                None => self.cache_of(d),
            }
        } else {
            self.cache_of(d)
        }
    }

    /// Evaluation of `e` as the next flush performs it at computation
    /// `bound`'s turn: cells hold their current values, and every derived
    /// computation before `bound` has already been brought to its
    /// next-flush state.
    pub open spec fn flush_eval(self, e: Expr, bound: int) -> Option<i64>
        decreases bound, 2int, expr_size(e),
    {
        match e {
            Expr::Const(n) => Some(n),
            Expr::Read(s) => match s {
                SourceId::Cell(i) => Some(self.cells@[i as int].value),
                SourceId::Comp(j) => if 0 <= j < bound {
                    if self.comps@[j as int].disposed || self.flush_failed(j as int) {
                        None
                    } else {
                        Some(self.flush_cache(j as int))
                    }
                } else {
                    None
                },
            },
            Expr::Plus(a, b) => match (self.flush_eval(*a, bound), self.flush_eval(*b, bound)) {
                (Some(x), Some(y)) => if i64::MIN <= x + y <= i64::MAX {
                    Some((x + y) as i64)
                } else {
                    None
                },
                _ => None,
            },
            Expr::If(c, t, f) => match self.flush_eval(*c, bound) {
                Some(v) => if v != 0 {
                    self.flush_eval(*t, bound)
                } else {
                    self.flush_eval(*f, bound)
                },
                None => None,
            },
        }
    }

    /// The reads a successful next-flush evaluation of `e` performs at
    /// computation `bound`'s turn.
    pub open spec fn flush_reads(self, e: Expr, bound: int) -> Set<SourceId>
        decreases bound, 5int, expr_size(e),
    {
        match e {
            Expr::Const(_) => Set::empty(),
            Expr::Read(s) => set![s],
            Expr::Plus(a, b) => self.flush_reads(*a, bound).union(self.flush_reads(*b, bound)),
            Expr::If(c, t, f) => self.flush_reads(*c, bound).union(
                match self.flush_eval(*c, bound) {
                    Some(v) => if v != 0 {
                        self.flush_reads(*t, bound)
                    } else {
                        self.flush_reads(*f, bound)
                    },
                    None => Set::empty(),
                },
            ),
        }
    }

    /// The dependency record of computation `c` once the next flush has
    /// processed it: the sources of its fresh run if that run succeeds,
    /// otherwise the record of its last successful run, untouched.
    pub open spec fn flush_deps(self, c: int) -> Set<SourceId>
        decreases c, 6int, 0nat,
    {
        if self.runs_next(c) && self.flush_val(c) is Some {
            self.flush_reads(self.comps@[c].body, c)
        } else {
            self.deps_of(c)
        }
    }

    /// The log of effect `c` once the next flush has processed it: one new
    /// entry when it runs and its run succeeds, otherwise unchanged.
    pub open spec fn flush_log(self, c: int) -> Seq<i64>
        decreases c, 6int, 0nat,
    {
        if self.runs_next(c) && self.is_effect(c) {
            match self.flush_val(c) {
                Some(v) => self.log_of(c).push(v),
                None => self.log_of(c),
            }
        } else {
            self.log_of(c)
        }
    }

    /// The whole observable outcome of one flush: `post` is `pre` with every
    /// dirty, live computation re-run exactly once, in creation order.
    /// Cells and the set of computations are untouched; dirty marks are
    /// consumed; caches, logs, failure marks and dependency records take
    /// their next-flush values.
    pub open spec fn flushed(pre: Engine, post: Engine) -> bool {
        &&& post.n_cells() == pre.n_cells()
        &&& post.n_comps() == pre.n_comps()
        &&& forall|i: int| 0 <= i < pre.n_cells()
            ==> #[trigger] post.cells@[i].value == pre.cells@[i].value
                && post.cells@[i].version == pre.cells@[i].version
        &&& forall|c: int| 0 <= c < pre.n_comps() ==> !(#[trigger] post.comps@[c].dirty)
        &&& forall|c: int| 0 <= c < pre.n_comps()
            ==> #[trigger] post.comps@[c].body == pre.comps@[c].body
        &&& forall|c: int| 0 <= c < pre.n_comps()
            ==> #[trigger] post.comps@[c].disposed == pre.comps@[c].disposed
        &&& forall|c: int| 0 <= c < pre.n_comps()
            ==> (#[trigger] post.is_effect(c) <==> pre.is_effect(c))
        &&& forall|c: int| 0 <= c < pre.n_comps()
            ==> #[trigger] post.cache_of(c) == pre.flush_cache(c)
        &&& forall|c: int| 0 <= c < pre.n_comps()
            ==> #[trigger] post.log_of(c) == pre.flush_log(c)
        &&& forall|c: int| 0 <= c < pre.n_comps()
            ==> #[trigger] post.comps@[c].failed == pre.flush_failed(c)
        &&& forall|c: int| 0 <= c < pre.n_comps()
            ==> #[trigger] post.deps_of(c) == pre.flush_deps(c)
    }

    /// During a flush, once every derived computation before `bound` has
    /// been brought to its next-flush state, evaluating against the current
    /// caches computes exactly the next-flush value and reads.
    proof fn lemma_eval_bridge(cur: Engine, pre: Engine, e: Expr, bound: int)
        requires
            0 <= bound <= pre.n_comps(),
            cur.n_cells() == pre.n_cells(),
            cur.n_comps() == pre.n_comps(),
            pre.body_ok(e, bound),
            forall|i: int| 0 <= i < pre.n_cells()
                ==> #[trigger] cur.cells@[i].value == pre.cells@[i].value,
            forall|d: int| 0 <= d < bound
                ==> #[trigger] cur.comps@[d].disposed == pre.comps@[d].disposed,
            forall|d: int| 0 <= d < bound
                ==> (#[trigger] cur.is_derived(d) <==> pre.is_derived(d)),
            forall|d: int| 0 <= d < bound
                ==> #[trigger] cur.comps@[d].failed == pre.flush_failed(d),
            forall|d: int| 0 <= d < bound
                ==> #[trigger] cur.cache_of(d) == pre.flush_cache(d),
        ensures
            cur.eval_now(e) == pre.flush_eval(e, bound),
            cur.eval_now(e) is Some ==> cur.reads_now(e) == pre.flush_reads(e, bound),
        decreases e,
    {
        match e {
            Expr::Const(_) => {
                assert(cur.reads_now(e) =~= pre.flush_reads(e, bound));
            },
            Expr::Read(s) => {
                assert(cur.reads_now(e) =~= pre.flush_reads(e, bound));
            },
            Expr::Plus(a, b) => {
                Self::lemma_eval_bridge(cur, pre, *a, bound);
                Self::lemma_eval_bridge(cur, pre, *b, bound);
                if cur.eval_now(e) is Some {
                    assert(cur.reads_now(e) =~= pre.flush_reads(e, bound));
                }
            },
            Expr::If(c, t, f) => {
                Self::lemma_eval_bridge(cur, pre, *c, bound);
                Self::lemma_eval_bridge(cur, pre, *t, bound);
                Self::lemma_eval_bridge(cur, pre, *f, bound);
                if cur.eval_now(e) is Some {
                    assert(cur.reads_now(e) =~= pre.flush_reads(e, bound));
                }
            },
        }
    }

    /// Runs one propagation batch to completion. Every computation that a
    /// write has marked dirty — and, transitively, every live subscriber of
    /// a derived computation that re-runs — re-runs exactly once, in
    /// creation order. Creation order is a topological order of the
    /// dependency graph, so each computation observes the values its
    /// sources settled on in this same batch, never an intermediate state
    /// (glitch freedom). Disposed computations are skipped at their turn and
    /// their dirty marks are discarded. A computation whose run fails keeps
    /// the dependency record and (for a derived computation) the cached
    /// value of its last successful run, and is marked failed; the rest of
    /// the batch still runs.
    pub fn flush(&mut self)
        requires
            old(self).wf(),
        ensures
            final(self).wf(),
            Engine::flushed(*old(self), *final(self)),
    {
        let ghost g0 = *old(self);
        let n = self.comps.len();
        let mut c: usize = 0;
        while c < n
            invariant
                g0.wf(),
                g0 == *old(self),
                self.wf(),
                n == g0.n_comps(),
                c <= n,
                self.n_cells() == g0.n_cells(),
                self.n_comps() == g0.n_comps(),
                forall|i: int| 0 <= i < g0.n_cells()
                    ==> #[trigger] self.cells@[i].value == g0.cells@[i].value
                        && self.cells@[i].version == g0.cells@[i].version,
                forall|c2: int| 0 <= c2 < n
                    ==> #[trigger] self.comps@[c2].body == g0.comps@[c2].body,
                forall|c2: int| 0 <= c2 < n
                    ==> #[trigger] self.comps@[c2].disposed == g0.comps@[c2].disposed,
                forall|c2: int| 0 <= c2 < n
                    ==> (#[trigger] self.is_effect(c2) <==> g0.is_effect(c2)),
                forall|c2: int| 0 <= c2 < c ==> !(#[trigger] self.comps@[c2].dirty),
                forall|c2: int| 0 <= c2 < c
                    ==> #[trigger] self.cache_of(c2) == g0.flush_cache(c2),
                forall|c2: int| 0 <= c2 < c
                    ==> #[trigger] self.log_of(c2) == g0.flush_log(c2),
                forall|c2: int| 0 <= c2 < c
                    ==> #[trigger] self.comps@[c2].failed == g0.flush_failed(c2),
                forall|c2: int| 0 <= c2 < c
                    ==> #[trigger] self.deps_of(c2) == g0.flush_deps(c2),
                forall|c2: int| c <= c2 < n
                    ==> #[trigger] self.comps@[c2].kind == g0.comps@[c2].kind,
                forall|c2: int| c <= c2 < n
                    ==> #[trigger] self.comps@[c2].deps == g0.comps@[c2].deps,
                forall|c2: int| c <= c2 < n
                    ==> #[trigger] self.comps@[c2].failed == g0.comps@[c2].failed,
                forall|c2: usize, x: usize| c <= (c2 as int) < n
                    ==> (#[trigger] self.comps@[c2 as int].subs@.contains(x)
                        <==> g0.comps@[c2 as int].subs@.contains(x)),
                forall|c2: usize| c <= (c2 as int) < n
                    ==> #[trigger] self.comps@[c2 as int].dirty == (
                        g0.comps@[c2 as int].dirty || exists|d: usize| 0 <= (d as int) < c
                            && g0.is_derived(d as int)
                            && g0.runs_next(d as int)
                            && #[trigger] g0.comps@[d as int].subs@.contains(c2)),
            decreases n - c,
        {
            let ghost pre_turn = *self;
            proof {
                assert(pre_turn.comps@[c as int].dirty == g0.dirty_at(c as int)) by {
                    if pre_turn.comps@[c as int].dirty {
                        if !g0.comps@[c as int].dirty {
                            let d = choose|d: usize| 0 <= (d as int) < c
                                && g0.is_derived(d as int) && g0.runs_next(d as int)
                                && #[trigger] g0.comps@[d as int].subs@.contains(c);
                            assert(g0.dirty_at(c as int)) by {
                                assert(0 <= (d as int) && (d as int) < (c as int));
                                assert(g0.is_derived(d as int));
                                assert(!g0.comps@[d as int].disposed);
                                assert(g0.comps@[d as int].subs@.contains(
                                    (c as int) as usize));
                                assert(g0.dirty_at(d as int));
                            }
                        }
                    } else {
                        if g0.dirty_at(c as int) {
                            if !g0.comps@[c as int].dirty {
                                let d = choose|d: int| 0 <= d < c as int
                                    && g0.is_derived(d) && !g0.comps@[d].disposed
                                    && #[trigger] g0.comps@[d].subs@.contains(c)
                                    && g0.dirty_at(d);
                                assert(g0.runs_next(d));
                                assert(exists|d2: usize| 0 <= (d2 as int) < c
                                    && g0.is_derived(d2 as int) && g0.runs_next(d2 as int)
                                    && #[trigger] g0.comps@[
                                        d2 as int].subs@.contains(c)) by {
                                    assert(g0.is_derived((d as usize) as int)
                                        && g0.runs_next((d as usize) as int)
                                        && g0.comps@[
                                            (d as usize) as int].subs@.contains(c));
                                }
                            }
                        }
                    }
                }
            }
            if self.comps[c].dirty && !self.comps[c].disposed {
                proof {
                    assert(g0.runs_next(c as int));
                    assert(self.body_ok(self.comps@[c as int].body, n as int)) by {
                        assert(self.body_ok(self.comps@[c as int].body, c as int));
                        self.lemma_body_ok_mono(
                            self.comps@[c as int].body, c as int, n as int);
                    }
                }
                let ghost bodyc = self.comps@[c as int].body;
                let mut reads: Vec<SourceId> = Vec::new();
                let res = {
                    let body_ref = &self.comps[c].body;
                    self.eval_track(body_ref, &mut reads)
                };
                proof {
                    assert(self.comps@[c as int].body == g0.comps@[c as int].body);
                    assert(g0.body_ok(g0.comps@[c as int].body, c as int));
                    assert forall|d: int| 0 <= d < c as int
                        implies (#[trigger] self.is_derived(d) <==> g0.is_derived(d)) by {
                        assert(self.is_effect(d) <==> g0.is_effect(d));
                    }
                    Self::lemma_eval_bridge(
                        *self, g0, self.comps@[c as int].body, c as int);
                    assert(res == g0.flush_val(c as int));
                }
                match res {
                    Some(v) => {
                        proof {
                            assert(reads@.to_set().subset_of(expr_refs(bodyc))) by {
                                assert(Seq::<SourceId>::empty().to_set()
                                    =~= Set::<SourceId>::empty());
                            }
                            assert(reads@.to_set() =~= g0.flush_reads(
                                g0.comps@[c as int].body, c as int)) by {
                                assert(Seq::<SourceId>::empty().to_set()
                                    =~= Set::<SourceId>::empty());
                                assert(Set::<SourceId>::empty().union(
                                    self.reads_now(bodyc))
                                    =~= self.reads_now(bodyc));
                            }
                        }
                        self.detach(c, false);
                        proof {
                            assert(self.comps@[c as int].body == bodyc);
                            assert(self.body_ok(bodyc, c as int));
                            self.lemma_body_ok_refs(bodyc, c as int);
                            assert forall|s: SourceId| reads@.contains(s)
                                implies self.src_valid(s) by {
                                assert(reads@.to_set().contains(s));
                                assert(expr_refs(bodyc).contains(s));
                            }
                            assert forall|s: SourceId| reads@.contains(s)
                                implies (s matches SourceId::Comp(j) ==> j < c) by {
                                assert(reads@.to_set().contains(s));
                                assert(expr_refs(bodyc).contains(s));
                            }
                        }
                        self.set_deps(c, reads);
                        let ghost pre_val = *self;
                        match &mut self.comps[c].kind {
                            CompKind::Effect { log } => {
                                log.push(v);
                            },
                            CompKind::Derived { cache } => {
                                *cache = v;
                            },
                        }
                        self.comps[c].failed = false;
                        self.comps[c].dirty = false;
                        proof {
                            assert forall|c2: int| 0 <= c2 < n && c2 != c as int
                                implies #[trigger] self.comps@[c2]
                                    == pre_val.comps@[c2] by {}
                            assert(self.comps@[c as int].body == pre_val.comps@[c as int].body);
                            assert(self.comps@[c as int].deps == pre_val.comps@[c as int].deps);
                            assert(self.comps@[c as int].subs == pre_val.comps@[c as int].subs);
                            assert(self.is_derived(c as int) <==> pre_val.is_derived(c as int));
                            assert(self.is_effect(c as int) <==> pre_val.is_effect(c as int));
                            pre_val.lemma_wf_same_graph(*self);
                        }
                        let ghost pre_mark = *self;
                        let is_d = matches!(self.comps[c].kind, CompKind::Derived { .. });
                        if is_d {
                            self.mark_subs_dirty(c);
                        }
                        proof {
                            assert forall|c2: usize| (c as int) + 1 <= (c2 as int) < n
                                implies #[trigger] self.comps@[c2 as int].dirty == (
                                    g0.comps@[c2 as int].dirty
                                    || exists|d: usize| 0 <= (d as int) < (c as int) + 1
                                        && g0.is_derived(d as int)
                                        && g0.runs_next(d as int)
                                        && #[trigger] g0.comps@[
                                            d as int].subs@.contains(c2)) by {
                                assert(pre_mark.comps@[c2 as int].dirty
                                    == pre_turn.comps@[c2 as int].dirty);
                                assert(pre_mark.comps@[c as int].subs@.contains(c2)
                                    <==> g0.comps@[c as int].subs@.contains(c2)) by {
                                    if pre_mark.comps@[c as int].subs@.contains(c2) {
                                        assert(pre_mark.deps_of(c2 as int).contains(
                                            SourceId::Comp(c)));
                                        assert(pre_mark.comps@[c2 as int].deps
                                            == g0.comps@[c2 as int].deps);
                                        assert(g0.deps_of(c2 as int).contains(
                                            SourceId::Comp(c)));
                                        assert(g0.comps@[c as int].subs@.contains(c2));
                                    }
                                    if g0.comps@[c as int].subs@.contains(c2) {
                                        assert(g0.deps_of(c2 as int).contains(
                                            SourceId::Comp(c)));
                                        assert(pre_mark.comps@[c2 as int].deps
                                            == g0.comps@[c2 as int].deps);
                                        assert(pre_mark.deps_of(c2 as int).contains(
                                            SourceId::Comp(c)));
                                        assert(pre_mark.comps@[
                                            c as int].subs@.contains(c2));
                                    }
                                }
                                if is_d {
                                    assert(self.comps@[c2 as int].dirty
                                        == (pre_mark.comps@[c2 as int].dirty
                                            || pre_mark.comps@[
                                                c as int].subs@.contains(c2)));
                                    assert(g0.is_derived(c as int)) by {
                                        assert(pre_mark.comps@[c as int].kind
                                            == self.comps@[c as int].kind);
                                    }
                                    if self.comps@[c2 as int].dirty
                                        && !pre_mark.comps@[c2 as int].dirty {
                                        assert(g0.comps@[c as int].subs@.contains(c2));
                                        assert(g0.is_derived((c as usize) as int)
                                            && g0.runs_next((c as usize) as int)
                                            && g0.comps@[
                                                (c as usize) as int].subs@.contains(c2));
                                    }
                                    if exists|d: usize| 0 <= (d as int) < (c as int) + 1
                                        && g0.is_derived(d as int)
                                        && g0.runs_next(d as int)
                                        && #[trigger] g0.comps@[
                                            d as int].subs@.contains(c2) {
                                        let d = choose|d: usize|
                                            0 <= (d as int) < (c as int) + 1
                                            && g0.is_derived(d as int)
                                            && g0.runs_next(d as int)
                                            && #[trigger] g0.comps@[
                                                d as int].subs@.contains(c2);
                                        if (d as int) < c as int {
                                            assert(pre_turn.comps@[c2 as int].dirty);
                                        } else {
                                            assert(d == c);
                                            assert(pre_mark.comps@[
                                                c as int].subs@.contains(c2));
                                            assert(self.comps@[c2 as int].dirty);
                                        }
                                    }
                                } else {
                                    assert(self.comps@[c2 as int].dirty
                                        == pre_mark.comps@[c2 as int].dirty);
                                    assert(!g0.is_derived(c as int)) by {
                                        assert(pre_mark.comps@[c as int].kind
                                            == self.comps@[c as int].kind);
                                        assert(self.is_effect(c as int)
                                            <==> g0.is_effect(c as int));
                                    }
                                    if exists|d: usize| 0 <= (d as int) < (c as int) + 1
                                        && g0.is_derived(d as int)
                                        && g0.runs_next(d as int)
                                        && #[trigger] g0.comps@[
                                            d as int].subs@.contains(c2) {
                                        let d = choose|d: usize|
                                            0 <= (d as int) < (c as int) + 1
                                            && g0.is_derived(d as int)
                                            && g0.runs_next(d as int)
                                            && #[trigger] g0.comps@[
                                                d as int].subs@.contains(c2);
                                        if (d as int) < c as int {
                                            assert(pre_turn.comps@[c2 as int].dirty);
                                        } else {
                                            assert(d == c);
                                            assert(false);
                                        }
                                    }
                                }
                            }
                        }
                        proof {
                            assert(g0.flush_val(c as int) == Some(v));
                            assert(self.cache_of(c as int) == g0.flush_cache(c as int));
                            assert(self.log_of(c as int) == g0.flush_log(c as int)) by {
                                if g0.is_effect(c as int) {
                                    assert(self.log_of(c as int)
                                        == g0.log_of(c as int).push(v));
                                }
                            }
                            assert(self.comps@[c as int].failed
                                == g0.flush_failed(c as int));
                            assert(self.deps_of(c as int) == g0.flush_deps(c as int));
                            assert forall|c2: int| 0 <= c2 < c as int + 1
                                implies !(#[trigger] self.comps@[c2].dirty) by {
                                if self.comps@[c2].dirty {
                                    assert(g0.comps@[c as int].subs@.contains(
                                        c2 as usize));
                                    assert(self.comps@[c as int].subs@.contains(
                                        c2 as usize));
                                    assert(self.deps_of(c2).contains(
                                        SourceId::Comp(c as usize)));
                                    assert(false);
                                }
                            }
                        }
                    },
                    None => {
                        self.comps[c].failed = true;
                        self.comps[c].dirty = false;
                        proof {
                            assert forall|c2: int| 0 <= c2 < n && c2 != c as int
                                implies #[trigger] self.comps@[c2]
                                    == pre_turn.comps@[c2] by {}
                            assert(self.comps@[c as int].body
                                == pre_turn.comps@[c as int].body);
                            assert(self.comps@[c as int].deps
                                == pre_turn.comps@[c as int].deps);
                            assert(self.comps@[c as int].subs
                                == pre_turn.comps@[c as int].subs);
                            assert(self.is_derived(c as int)
                                <==> pre_turn.is_derived(c as int));
                            pre_turn.lemma_wf_same_graph(*self);
                        }
                        let ghost pre_mark = *self;
                        let is_d = matches!(self.comps[c].kind, CompKind::Derived { .. });
                        if is_d {
                            self.mark_subs_dirty(c);
                        }
                        proof {
                            assert forall|c2: usize| (c as int) + 1 <= (c2 as int) < n
                                implies #[trigger] self.comps@[c2 as int].dirty == (
                                    g0.comps@[c2 as int].dirty
                                    || exists|d: usize| 0 <= (d as int) < (c as int) + 1
                                        && g0.is_derived(d as int)
                                        && g0.runs_next(d as int)
                                        && #[trigger] g0.comps@[
                                            d as int].subs@.contains(c2)) by {
                                assert(pre_mark.comps@[c2 as int].dirty
                                    == pre_turn.comps@[c2 as int].dirty);
                                assert(pre_mark.comps@[c as int].subs@.contains(c2)
                                    <==> g0.comps@[c as int].subs@.contains(c2)) by {
                                    if pre_mark.comps@[c as int].subs@.contains(c2) {
                                        assert(pre_mark.deps_of(c2 as int).contains(
                                            SourceId::Comp(c)));
                                        assert(pre_mark.comps@[c2 as int].deps
                                            == g0.comps@[c2 as int].deps);
                                        assert(g0.deps_of(c2 as int).contains(
                                            SourceId::Comp(c)));
                                        assert(g0.comps@[c as int].subs@.contains(c2));
                                    }
                                    if g0.comps@[c as int].subs@.contains(c2) {
                                        assert(g0.deps_of(c2 as int).contains(
                                            SourceId::Comp(c)));
                                        assert(pre_mark.comps@[c2 as int].deps
                                            == g0.comps@[c2 as int].deps);
                                        assert(pre_mark.deps_of(c2 as int).contains(
                                            SourceId::Comp(c)));
                                        assert(pre_mark.comps@[
                                            c as int].subs@.contains(c2));
                                    }
                                }
                                if is_d {
                                    assert(self.comps@[c2 as int].dirty
                                        == (pre_mark.comps@[c2 as int].dirty
                                            || pre_mark.comps@[
                                                c as int].subs@.contains(c2)));
                                    assert(g0.is_derived(c as int)) by {
                                        assert(pre_mark.comps@[c as int].kind
                                            == self.comps@[c as int].kind);
                                    }
                                    if self.comps@[c2 as int].dirty
                                        && !pre_mark.comps@[c2 as int].dirty {
                                        assert(g0.comps@[c as int].subs@.contains(c2));
                                        assert(g0.is_derived((c as usize) as int)
                                            && g0.runs_next((c as usize) as int)
                                            && g0.comps@[
                                                (c as usize) as int].subs@.contains(c2));
                                    }
                                    if exists|d: usize| 0 <= (d as int) < (c as int) + 1
                                        && g0.is_derived(d as int)
                                        && g0.runs_next(d as int)
                                        && #[trigger] g0.comps@[
                                            d as int].subs@.contains(c2) {
                                        let d = choose|d: usize|
                                            0 <= (d as int) < (c as int) + 1
                                            && g0.is_derived(d as int)
                                            && g0.runs_next(d as int)
                                            && #[trigger] g0.comps@[
                                                d as int].subs@.contains(c2);
                                        if (d as int) < c as int {
                                            assert(pre_turn.comps@[c2 as int].dirty);
                                        } else {
                                            assert(d == c);
                                            assert(pre_mark.comps@[
                                                c as int].subs@.contains(c2));
                                            assert(self.comps@[c2 as int].dirty);
                                        }
                                    }
                                } else {
                                    assert(self.comps@[c2 as int].dirty
                                        == pre_mark.comps@[c2 as int].dirty);
                                    assert(!g0.is_derived(c as int)) by {
                                        assert(pre_mark.comps@[c as int].kind
                                            == self.comps@[c as int].kind);
                                        assert(self.is_effect(c as int)
                                            <==> g0.is_effect(c as int));
                                    }
                                    if exists|d: usize| 0 <= (d as int) < (c as int) + 1
                                        && g0.is_derived(d as int)
                                        && g0.runs_next(d as int)
                                        && #[trigger] g0.comps@[
                                            d as int].subs@.contains(c2) {
                                        let d = choose|d: usize|
                                            0 <= (d as int) < (c as int) + 1
                                            && g0.is_derived(d as int)
                                            && g0.runs_next(d as int)
                                            && #[trigger] g0.comps@[
                                                d as int].subs@.contains(c2);
                                        if (d as int) < c as int {
                                            assert(pre_turn.comps@[c2 as int].dirty);
                                        } else {
                                            assert(d == c);
                                            assert(false);
                                        }
                                    }
                                }
                            }
                        }
                        proof {
                            assert(g0.flush_val(c as int) is None);
                            assert(self.cache_of(c as int) == g0.flush_cache(c as int));
                            assert(self.log_of(c as int) == g0.flush_log(c as int));
                            assert(self.comps@[c as int].failed
                                == g0.flush_failed(c as int));
                            assert(self.deps_of(c as int) == g0.flush_deps(c as int)) by {
                                assert(self.comps@[c as int].deps
                                    == g0.comps@[c as int].deps);
                            }
                            assert forall|c2: int| 0 <= c2 < c as int + 1
                                implies !(#[trigger] self.comps@[c2].dirty) by {
                                if self.comps@[c2].dirty {
                                    assert(g0.comps@[c as int].subs@.contains(
                                        c2 as usize));
                                    assert(self.comps@[c as int].subs@.contains(
                                        c2 as usize));
                                    assert(self.deps_of(c2).contains(
                                        SourceId::Comp(c as usize)));
                                    assert(false);
                                }
                            }
                        }
                    },
                }
            } else {
                self.comps[c].dirty = false;
                proof {
                    assert forall|c2: int| 0 <= c2 < n && c2 != c as int
                        implies #[trigger] self.comps@[c2] == pre_turn.comps@[c2] by {}
                    assert(self.comps@[c as int].body == pre_turn.comps@[c as int].body);
                    assert(self.comps@[c as int].deps == pre_turn.comps@[c as int].deps);
                    assert(self.comps@[c as int].subs == pre_turn.comps@[c as int].subs);
                    assert(self.is_derived(c as int) <==> pre_turn.is_derived(c as int));
                    pre_turn.lemma_wf_same_graph(*self);
                    assert(!g0.runs_next(c as int));
                    assert forall|c2: usize| (c as int) + 1 <= (c2 as int) < n
                        implies #[trigger] self.comps@[c2 as int].dirty == (
                            g0.comps@[c2 as int].dirty
                            || exists|d: usize| 0 <= (d as int) < (c as int) + 1
                                && g0.is_derived(d as int)
                                && g0.runs_next(d as int)
                                && #[trigger] g0.comps@[d as int].subs@.contains(c2)) by {
                        assert(self.comps@[c2 as int].dirty
                            == pre_turn.comps@[c2 as int].dirty);
                        if exists|d: usize| 0 <= (d as int) < (c as int) + 1
                            && g0.is_derived(d as int) && g0.runs_next(d as int)
                            && #[trigger] g0.comps@[d as int].subs@.contains(c2) {
                            let d = choose|d: usize| 0 <= (d as int) < (c as int) + 1
                                && g0.is_derived(d as int) && g0.runs_next(d as int)
                                && #[trigger] g0.comps@[d as int].subs@.contains(c2);
                            if (d as int) < c as int {
                                assert(pre_turn.comps@[c2 as int].dirty);
                            } else {
                                assert(d == c);
                                assert(false);
                            }
                        }
                    }
                    assert(self.cache_of(c as int) == g0.flush_cache(c as int)) by {
                        assert(self.comps@[c as int].kind == g0.comps@[c as int].kind);
                    }
                    assert(self.log_of(c as int) == g0.flush_log(c as int)) by {
                        assert(self.comps@[c as int].kind == g0.comps@[c as int].kind);
                    }
                    assert(self.comps@[c as int].failed == g0.flush_failed(c as int));
                    assert(self.deps_of(c as int) == g0.flush_deps(c as int)) by {
                        assert(self.comps@[c as int].deps == g0.comps@[c as int].deps);
                    }
                }
            }
            proof {
                assert forall|c2: int| 0 <= c2 < n
                    implies (#[trigger] self.is_effect(c2) <==> g0.is_effect(c2)) by {
                    assert(pre_turn.is_effect(c2) <==> g0.is_effect(c2));
                }
                assert forall|c2: int| 0 <= c2 < c as int
                    implies #[trigger] self.cache_of(c2) == g0.flush_cache(c2) by {
                    assert(self.comps@[c2].kind == pre_turn.comps@[c2].kind);
                    assert(pre_turn.cache_of(c2) == g0.flush_cache(c2));
                }
                assert forall|c2: int| 0 <= c2 < c as int
                    implies #[trigger] self.log_of(c2) == g0.flush_log(c2) by {
                    assert(self.comps@[c2].kind == pre_turn.comps@[c2].kind);
                    assert(pre_turn.log_of(c2) == g0.flush_log(c2));
                }
                assert forall|c2: int| 0 <= c2 < c as int
                    implies #[trigger] self.comps@[c2].failed == g0.flush_failed(c2) by {
                    assert(self.comps@[c2].failed == pre_turn.comps@[c2].failed);
                }
                assert forall|c2: int| 0 <= c2 < c as int
                    implies #[trigger] self.deps_of(c2) == g0.flush_deps(c2) by {
                    assert(self.comps@[c2].deps == pre_turn.comps@[c2].deps);
                    assert(pre_turn.deps_of(c2) == g0.flush_deps(c2));
                }
                assert forall|c2: int| (c as int) < c2 < n
                    implies #[trigger] self.comps@[c2].kind == g0.comps@[c2].kind by {
                    assert(self.comps@[c2].kind == pre_turn.comps@[c2].kind);
                }
                assert forall|c2: int| (c as int) < c2 < n
                    implies #[trigger] self.comps@[c2].deps == g0.comps@[c2].deps by {
                    assert(self.comps@[c2].deps == pre_turn.comps@[c2].deps);
                }
                assert forall|c2: int| (c as int) < c2 < n
                    implies #[trigger] self.comps@[c2].failed == g0.comps@[c2].failed by {
                    assert(self.comps@[c2].failed == pre_turn.comps@[c2].failed);
                }
                assert forall|c2: usize, x: usize| (c as int) + 1 <= (c2 as int) < n
                    implies (#[trigger] self.comps@[c2 as int].subs@.contains(x)
                        <==> g0.comps@[c2 as int].subs@.contains(x)) by {
                    if self.comps@[c2 as int].subs@.contains(x) {
                        assert((x as int) < n);
                        assert(self.deps_of(x as int).contains(SourceId::Comp(c2)));
                        assert((c2 as int) < x as int);
                        assert(self.comps@[x as int].deps == g0.comps@[x as int].deps);
                        assert(g0.deps_of(x as int).contains(SourceId::Comp(c2)));
                        assert(g0.comps@[c2 as int].subs@.contains(x));
                    }
                    if g0.comps@[c2 as int].subs@.contains(x) {
                        assert((x as int) < n);
                        assert(g0.deps_of(x as int).contains(SourceId::Comp(c2)));
                        assert((c2 as int) < x as int);
                        assert(self.comps@[x as int].deps == g0.comps@[x as int].deps);
                        assert(self.deps_of(x as int).contains(SourceId::Comp(c2)));
                        assert(self.comps@[c2 as int].subs@.contains(x));
                    }
                }
                assert forall|c2: int| 0 <= c2 < n
                    implies #[trigger] self.comps@[c2].body == g0.comps@[c2].body by {
                    assert(pre_turn.comps@[c2].body == g0.comps@[c2].body);
                }
                assert forall|c2: int| 0 <= c2 < n
                    implies #[trigger] self.comps@[c2].disposed
                        == g0.comps@[c2].disposed by {
                    assert(pre_turn.comps@[c2].disposed == g0.comps@[c2].disposed);
                }
            }
            c = c + 1;
        }
    }

    /// The sources a successful evaluation of `e` reads right now: every
    /// read along the taken branches.
    pub open spec fn reads_now(self, e: Expr) -> Set<SourceId>
        decreases e,
    {
        match e {
            Expr::Const(_) => Set::empty(),
            Expr::Read(s) => set![s],
            Expr::Plus(a, b) => self.reads_now(*a).union(self.reads_now(*b)),
            Expr::If(c, t, f) => self.reads_now(*c).union(match self.eval_now(*c) {
                Some(v) => if v != 0 {
                    self.reads_now(*t)
                } else {
                    self.reads_now(*f)
                },
                None => Set::empty(),
            }),
        }
    }
}

} // verus!
