//! The engine's propagation guarantees, stated and proved once over the
//! flush and write contracts.

use vstd::prelude::*;

use crate::engine::Engine;
use crate::expr::SourceId;

verus! {

/// Tracking correctness: when a computation re-runs successfully in a
/// flush, its dependency record afterwards is exactly the set of sources
/// that fresh run read, and the subscriber lists mirror it — the
/// computation is subscribed to a source if and only if it depends on it,
/// so no stale edge survives a re-run.
pub proof fn tracking_correctness(pre: Engine, post: Engine, c: usize)
    requires
        pre.wf(),
        post.wf(),
        Engine::flushed(pre, post),
        (c as int) < pre.n_comps(),
        pre.runs_next(c as int),
        pre.flush_val(c as int) is Some,
    ensures
        post.deps_of(c as int) == pre.flush_reads(pre.comps@[c as int].body, c as int),
        forall|s: SourceId| post.src_valid(s)
            ==> (#[trigger] post.subs_of(s).contains(c)
                <==> post.deps_of(c as int).contains(s)),
{
    assert(post.deps_of(c as int) == pre.flush_deps(c as int));
    assert forall|s: SourceId| post.src_valid(s)
        implies (#[trigger] post.subs_of(s).contains(c)
            <==> post.deps_of(c as int).contains(s)) by {
        match s {
            SourceId::Cell(i) => {
                assert(post.cells@[i as int].subs@.contains(c)
                    <==> post.deps_of(c as int).contains(SourceId::Cell(i)));
            },
            SourceId::Comp(j) => {
                assert(post.comps@[j as int].subs@.contains(c)
                    <==> post.deps_of(c as int).contains(SourceId::Comp(j)));
            },
        }
    }
}

/// Glitch freedom on a diamond: a cell `x` feeds two derived computations
/// `a` and `b`, and an effect `dd` reads both. Starting from a quiescent
/// engine, one write to `x` followed by one flush re-runs `a`, `b` and `dd`
/// — `dd` exactly once, appending exactly one observation — and the value
/// `dd` observes is its body evaluated against the freshly recomputed
/// caches of `a` and `b`, themselves computed from the written cell values:
/// never a mix of old and new state.
pub proof fn glitch_free_diamond(
    g0: Engine,
    g1: Engine,
    g2: Engine,
    x: usize,
    v: i64,
    a: usize,
    b: usize,
    dd: usize,
)
    requires
        g0.wf(),
        forall|c: int| 0 <= c < g0.n_comps() ==> !(#[trigger] g0.comps@[c].dirty),
        (x as int) < g0.n_cells(),
        (a as int) < g0.n_comps(),
        g0.is_derived(a as int),
        !g0.comps@[a as int].disposed,
        (b as int) < g0.n_comps(),
        g0.is_derived(b as int),
        !g0.comps@[b as int].disposed,
        (dd as int) < g0.n_comps(),
        g0.is_effect(dd as int),
        !g0.comps@[dd as int].disposed,
        g0.deps_of(a as int).contains(SourceId::Cell(x)),
        g0.deps_of(b as int).contains(SourceId::Cell(x)),
        g0.deps_of(dd as int).contains(SourceId::Comp(a)),
        g0.deps_of(dd as int).contains(SourceId::Comp(b)),
        Engine::written(g0, g1, x as int, v),
        Engine::flushed(g1, g2),
    ensures
        g1.runs_next(a as int),
        g1.runs_next(b as int),
        g1.runs_next(dd as int),
        g1.flush_val(dd as int) is Some ==> g2.log_of(dd as int)
            == g0.log_of(dd as int).push(g1.flush_val(dd as int)->Some_0),
        g1.flush_val(dd as int) is None ==> g2.log_of(dd as int) == g0.log_of(dd as int),
        g1.flush_val(dd as int) == g1.flush_eval(g1.comps@[dd as int].body, dd as int),
        g1.runs_next(a as int) && g1.flush_val(a as int) is Some
            ==> g1.flush_cache(a as int) == g1.flush_val(a as int)->Some_0,
        g1.runs_next(b as int) && g1.flush_val(b as int) is Some
            ==> g1.flush_cache(b as int) == g1.flush_val(b as int)->Some_0,
{
    assert(g0.cells@[x as int].subs@.contains(a));
    assert(g0.cells@[x as int].subs@.contains(b));
    assert(g1.comps@[a as int].dirty);
    assert(g1.comps@[b as int].dirty);
    assert(g1.dirty_at(a as int));
    assert(g1.dirty_at(b as int));
    assert(g1.runs_next(a as int));
    assert(g1.runs_next(b as int));
    assert((a as int) < dd as int && g0.is_derived(a as int)) by {
        assert(g0.deps_of(dd as int).contains(SourceId::Comp(a)));
    }
    assert(g0.comps@[a as int].subs@.contains(dd));
    assert(g1.dirty_at(dd as int)) by {
        assert(0 <= (a as int) && (a as int) < (dd as int) && g1.is_derived(a as int)
            && !g1.comps@[a as int].disposed
            && g1.comps@[a as int].subs@.contains((dd as int) as usize)
            && g1.dirty_at(a as int));
    }
    assert(g1.runs_next(dd as int));
    assert(g2.log_of(dd as int) == g1.flush_log(dd as int));
    assert(g1.log_of(dd as int) == g0.log_of(dd as int)) by {
        assert(g1.comps@[dd as int].kind == g0.comps@[dd as int].kind);
    }
    assert(g1.is_effect(dd as int)) by {
        assert(g1.comps@[dd as int].kind == g0.comps@[dd as int].kind);
    }
}

/// Batching idempotence: two writes of the same value to the same cell
/// before any flush coalesce into one batch — after the flush every effect
/// has appended at most one observation, and every live, successful effect
/// directly subscribed to the cell has appended exactly one.
pub proof fn batching_idempotence(
    g0: Engine,
    g1: Engine,
    g2: Engine,
    g3: Engine,
    x: usize,
    v: i64,
)
    requires
        g0.wf(),
        (x as int) < g0.n_cells(),
        Engine::written(g0, g1, x as int, v),
        Engine::written(g1, g2, x as int, v),
        Engine::flushed(g2, g3),
    ensures
        forall|c: int| 0 <= c < g0.n_comps()
            ==> (#[trigger] g3.log_of(c)).len() <= g0.log_of(c).len() + 1,
        forall|c: usize| (c as int) < g0.n_comps()
            && #[trigger] g0.cells@[x as int].subs@.contains(c)
            && !g0.comps@[c as int].disposed
            && g2.flush_val(c as int) is Some
            && g0.is_effect(c as int)
            ==> g3.log_of(c as int)
                == g0.log_of(c as int).push(g2.flush_val(c as int)->Some_0),
{
    assert forall|c: int| 0 <= c < g0.n_comps()
        implies (#[trigger] g3.log_of(c)).len() <= g0.log_of(c).len() + 1 by {
        assert(g3.log_of(c) == g2.flush_log(c));
        assert(g2.log_of(c) == g0.log_of(c)) by {
            assert(g2.comps@[c].kind == g1.comps@[c].kind);
            assert(g1.comps@[c].kind == g0.comps@[c].kind);
        }
    }
    assert forall|c: usize| (c as int) < g0.n_comps()
        && #[trigger] g0.cells@[x as int].subs@.contains(c)
        && !g0.comps@[c as int].disposed
        && g2.flush_val(c as int) is Some
        && g0.is_effect(c as int)
        implies g3.log_of(c as int)
            == g0.log_of(c as int).push(g2.flush_val(c as int)->Some_0) by {
        assert(g1.comps@[c as int].dirty);
        assert(g2.comps@[c as int].dirty);
        assert(g2.dirty_at(c as int));
        assert(g2.runs_next(c as int)) by {
            assert(g2.comps@[c as int].disposed == g1.comps@[c as int].disposed);
            assert(g1.comps@[c as int].disposed == g0.comps@[c as int].disposed);
        }
        assert(g2.is_effect(c as int)) by {
            assert(g2.comps@[c as int].kind == g1.comps@[c as int].kind);
            assert(g1.comps@[c as int].kind == g0.comps@[c as int].kind);
        }
        assert(g3.log_of(c as int) == g2.flush_log(c as int));
        assert(g2.log_of(c as int) == g0.log_of(c as int)) by {
            assert(g2.comps@[c as int].kind == g1.comps@[c as int].kind);
            assert(g1.comps@[c as int].kind == g0.comps@[c as int].kind);
        }
    }
}

/// Disposal safety: a computation that is disposed while queued — dirtied
/// but not yet run — does not run in the flush. Its log, cache and failure
/// mark are untouched, and its dirty mark is discarded unexecuted.
pub proof fn disposal_safety(pre: Engine, post: Engine, c: usize)
    requires
        pre.wf(),
        Engine::flushed(pre, post),
        (c as int) < pre.n_comps(),
        pre.comps@[c as int].disposed,
    ensures
        post.log_of(c as int) == pre.log_of(c as int),
        post.cache_of(c as int) == pre.cache_of(c as int),
        post.comps@[c as int].failed == pre.comps@[c as int].failed,
        !post.comps@[c as int].dirty,
{
    assert(!pre.runs_next(c as int));
    assert(post.log_of(c as int) == pre.flush_log(c as int));
    assert(post.cache_of(c as int) == pre.flush_cache(c as int));
    assert(post.comps@[c as int].failed == pre.flush_failed(c as int));
}

} // verus!
