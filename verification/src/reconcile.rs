//! Keyed-sequence reconciliation.
//!
//! Given the keys of a previously rendered sequence and the keys of the next
//! sequence, [`reconcile`] computes an ordered edit list: first one removal
//! for every key that disappeared, in previous order, then one op per
//! position of the next sequence — an in-place update for a surviving key
//! that keeps its relative order, a move for a surviving key that does not,
//! and an insertion for a new key. Keys mark stable identity: a node is
//! never re-created just because its position changed. Surviving keys kept
//! in place are chosen along a longest strictly increasing chain of previous
//! indices, so nodes whose relative order is already correct are not moved.

use vstd::prelude::*;

verus! {

/// One structural edit of a keyed sequence.
#[derive(Clone, Copy, PartialEq, Eq, Structural, Debug)]
pub enum EditOp {
    /// Tear the node for this key down: the key is gone from the next
    /// sequence.
    Remove { key: u64 },
    /// The key survives and keeps its relative order: refresh its node in
    /// place.
    Update { key: u64 },
    /// The key survives but changed its relative order: move its node here,
    /// then refresh it.
    Move { key: u64 },
    /// The key is new: create a node for it here.
    Insert { key: u64 },
}

/// Why a reconciliation was refused.
#[derive(Clone, Copy, PartialEq, Eq, Structural, Debug)]
pub enum ReconcileError {
    /// The next sequence holds the same key twice: the diff would be
    /// ambiguous, so this is surfaced at once.
    DuplicateKey,
}

/// A sequence has no duplicate elements.
pub open spec fn distinct_keys(s: Seq<u64>) -> bool {
    forall|k1: int, k2: int| 0 <= k1 < k2 < s.len() ==> s[k1] != s[k2]
}

/// The keys of `prev` that are gone from `next`, in `prev` order.
pub open spec fn removed_keys(prev: Seq<u64>, next: Seq<u64>) -> Seq<u64>
    decreases prev.len(),
{
    if prev.len() == 0 {
        Seq::empty()
    } else {
        removed_keys(prev.drop_last(), next) + (if !next.contains(prev.last()) {
            seq![prev.last()]
        } else {
            Seq::<u64>::empty()
        })
    }
}

/// The index of `k` in a duplicate-free sequence that holds it.
pub open spec fn key_index(s: Seq<u64>, k: u64) -> int {
    choose|i: int| 0 <= i < s.len() && s[i] == k
}

/// The op at a next-sequence position is the right kind for its key:
/// an insertion exactly when the key is new, otherwise an in-place update
/// or a move of the surviving node.
pub open spec fn op_fits(op: EditOp, prev: Seq<u64>, next: Seq<u64>, j: int) -> bool {
    if !prev.contains(next[j]) {
        op == (EditOp::Insert { key: next[j] })
    } else {
        op == (EditOp::Update { key: next[j] }) || op == (EditOp::Move { key: next[j] })
    }
}

/// The updated (kept-in-place) positions carry strictly increasing previous
/// indices: nodes left in place already stand in the right relative order,
/// so only the moved nodes are touched.
pub open spec fn stays_ordered(ops: Seq<EditOp>, base: int, prev: Seq<u64>, next: Seq<u64>) -> bool {
    forall|j1: int, j2: int| 0 <= j1 < j2 < next.len()
        && (#[trigger] ops[base + j1]) is Update && (#[trigger] ops[base + j2]) is Update
        ==> key_index(prev, next[j1]) < key_index(prev, next[j2])
}

/// Whether `v` holds `x`.
fn contains_key(v: &Vec<u64>, x: u64) -> (r: bool)
    ensures
        r == v@.contains(x),
{
    let mut k: usize = 0;
    while k < v.len()
        invariant
            k <= v@.len(),
            forall|m: int| 0 <= m < k ==> v@[m] != x,
        decreases v@.len() - k,
    {
        if v[k] == x {
            return true;
        }
        k = k + 1;
    }
    false
}

/// The index of `x` in `v`, which must hold it.
fn find_key(v: &Vec<u64>, x: u64) -> (r: usize)
    requires
        v@.contains(x),
        distinct_keys(v@),
    ensures
        (r as int) < v@.len(),
        v@[r as int] == x,
        r as int == key_index(v@, x),
    decreases v@.len(),
{
    let mut k: usize = 0;
    while k < v.len()
        invariant
            v@.contains(x),
            distinct_keys(v@),
            k <= v@.len(),
            forall|m: int| 0 <= m < k ==> v@[m] != x,
        decreases v@.len() - k,
    {
        if v[k] == x {
            proof {
                let i = key_index(v@, x);
                assert(0 <= i < v@.len() && v@[i] == x) by {
                    assert(v@[k as int] == x);
                }
                assert(i == k as int);
            }
            return k;
        }
        k = k + 1;
    }
    proof {
        let m = choose|m: int| 0 <= m < v@.len() && v@[m] == x;
        assert(false);
    }
    0
}

/// A strictly increasing chain of surviving positions of `next`: positions
/// ascend, every one carries a key that `prev` also holds, and their
/// previous indices ascend with them. The kept-in-place set of an edit list
/// is such a chain, and a minimal edit list keeps a longest one.
pub open spec fn is_chain(ch: Seq<int>, prev: Seq<u64>, next: Seq<u64>) -> bool {
    &&& forall|m: int| 0 <= m < ch.len()
        ==> 0 <= #[trigger] ch[m] < next.len() && prev.contains(next[ch[m]])
    &&& forall|m1: int, m2: int| 0 <= m1 < m2 < ch.len()
        ==> #[trigger] ch[m1] < #[trigger] ch[m2]
            && key_index(prev, next[ch[m1]]) < key_index(prev, next[ch[m2]])
}

/// How many of the `len` ops starting at `base` are in-place updates.
pub open spec fn update_count(ops: Seq<EditOp>, base: int, len: int) -> int
    decreases len,
{
    if len <= 0 {
        0
    } else {
        update_count(ops, base, len - 1) + (if ops[base + len - 1] is Update {
            1int
        } else {
            0int
        })
    }
}

/// The update count only reads the ops it counts.
proof fn lemma_update_count_frame(a: Seq<EditOp>, b: Seq<EditOp>, base: int, len: int)
    requires
        forall|k: int| 0 <= k < len ==> #[trigger] a[base + k] == b[base + k],
    ensures
        update_count(a, base, len) == update_count(b, base, len),
    decreases len,
{
    if len > 0 {
        lemma_update_count_frame(a, b, base, len - 1);
    }
}

/// Membership in a sequence after prepending one element.
proof fn lemma_cons_contains<A>(s: Seq<A>, x: A, y: A)
    ensures
        (seq![x] + s).contains(y) <==> (y == x || s.contains(y)),
{
    let t = seq![x] + s;
    if t.contains(y) {
        let m = choose|m: int| 0 <= m < t.len() && t[m] == y;
        if m > 0 {
            assert(s[m - 1] == y);
        }
    }
    assert(t[0] == x);
    if s.contains(y) {
        let m = choose|m: int| 0 <= m < s.len() && s[m] == y;
        assert(t[m + 1] == y);
    }
}

/// Every chain is at most as long as the chain-length table says of its
/// last member: the table dominates, position by position, because a
/// predecessor in a chain always has a strictly smaller table entry.
proof fn lemma_chain_le_lis(
    ch: Seq<int>,
    lisv: Seq<usize>,
    pidxv: Seq<usize>,
    reusedv: Seq<bool>,
    prev: Seq<u64>,
    next: Seq<u64>,
)
    requires
        is_chain(ch, prev, next),
        ch.len() >= 1,
        lisv.len() == next.len(),
        pidxv.len() == next.len(),
        reusedv.len() == next.len(),
        forall|m: int| 0 <= m < next.len()
            ==> (#[trigger] reusedv[m]) == prev.contains(next[m]),
        forall|m: int| 0 <= m < next.len() && reusedv[m]
            ==> (#[trigger] pidxv[m]) as int == key_index(prev, next[m]),
        forall|m: int| 0 <= m < next.len() && reusedv[m] ==> 1 <= #[trigger] lisv[m],
        forall|q: int, m2: int| 0 <= q < m2 < next.len() && reusedv[q] && reusedv[m2]
            && pidxv[q] < pidxv[m2] ==> #[trigger] lisv[q] < #[trigger] lisv[m2],
    ensures
        ch.len() <= lisv[ch.last()],
    decreases ch.len(),
{
    let last = ch.last();
    assert(0 <= last < next.len() && prev.contains(next[last])) by {
        assert(ch[ch.len() - 1] == last);
    }
    if ch.len() > 1 {
        let pref = ch.drop_last();
        assert(is_chain(pref, prev, next)) by {
            assert(forall|m: int| 0 <= m < pref.len() ==> pref[m] == ch[m]);
        }
        lemma_chain_le_lis(pref, lisv, pidxv, reusedv, prev, next);
        let snd = pref.last();
        assert(snd == ch[ch.len() - 2] && pref[pref.len() - 1] == snd);
        assert(snd < last && key_index(prev, next[snd]) < key_index(prev, next[last])) by {
            assert(ch[ch.len() - 2] < ch[ch.len() - 1]);
        }
        assert(0 <= snd < next.len() && prev.contains(next[snd])) by {
            assert(ch[ch.len() - 2] == snd);
        }
        assert(pidxv[snd] < pidxv[last]);
        assert(lisv[snd] < lisv[last]);
    }
}

/// Computes the ordered edit list that turns the keyed sequence `prev` into
/// the keyed sequence `next`: removals first, in previous order, then one op
/// per next position. Fails with `DuplicateKey` exactly when `next` repeats
/// a key. Keys that survive are updated in place or moved, never
/// re-inserted; the set left in place is a longest strictly increasing chain
/// of previous indices — no edit list with fewer moves exists.
pub fn reconcile(prev: &Vec<u64>, next: &Vec<u64>) -> (r: Result<Vec<EditOp>, ReconcileError>)
    requires
        distinct_keys(prev@),
    ensures
        r is Err <==> !distinct_keys(next@),
        r == Err::<Vec<EditOp>, ReconcileError>(ReconcileError::DuplicateKey)
            <==> !distinct_keys(next@),
        r matches Ok(ops) ==> {
            let base = removed_keys(prev@, next@).len() as int;
            &&& ops@.len() == base + next@.len()
            &&& forall|k: int| 0 <= k < base
                ==> ops@[k] == (EditOp::Remove { key: removed_keys(prev@, next@)[k] })
            &&& forall|j: int| 0 <= j < next@.len()
                ==> op_fits(#[trigger] ops@[base + j], prev@, next@, j)
            &&& stays_ordered(ops@, base, prev@, next@)
            &&& forall|ch: Seq<int>| is_chain(ch, prev@, next@)
                ==> ch.len() <= update_count(ops@, base, next@.len() as int)
            &&& exists|ch: Seq<int>| is_chain(ch, prev@, next@)
                && ch.len() == update_count(ops@, base, next@.len() as int)
        },
{
    // Fail fast on an ambiguous next sequence.
    let mut j: usize = 0;
    while j < next.len()
        invariant
            j <= next@.len(),
            forall|k1: int, k2: int| 0 <= k1 < k2 < j ==> next@[k1] != next@[k2],
        decreases next@.len() - j,
    {
        let mut k: usize = 0;
        while k < j
            invariant
                k <= j,
                (j as int) < next@.len(),
                forall|m: int| 0 <= m < k ==> next@[m] != next@[j as int],
            decreases j - k,
        {
            if next[k] == next[j] {
                proof {
                    assert(!distinct_keys(next@)) by {
                        assert(next@[k as int] == next@[j as int]);
                    }
                }
                return Err(ReconcileError::DuplicateKey);
            }
            k = k + 1;
        }
        j = j + 1;
    }
    let mut ops: Vec<EditOp> = Vec::new();
    // Removals, in previous order.
    let mut i: usize = 0;
    while i < prev.len()
        invariant
            i <= prev@.len(),
            ops@.len() == removed_keys(prev@.subrange(0, i as int), next@).len(),
            forall|k: int| 0 <= k < ops@.len()
                ==> ops@[k] == (EditOp::Remove {
                    key: removed_keys(prev@.subrange(0, i as int), next@)[k] }),
        decreases prev@.len() - i,
    {
        let ghost before = prev@.subrange(0, i as int);
        let ghost after = prev@.subrange(0, i as int + 1);
        proof {
            assert(after.drop_last() =~= before);
            assert(after.last() == prev@[i as int]);
        }
        if !contains_key(next, prev[i]) {
            ops.push(EditOp::Remove { key: prev[i] });
            proof {
                assert(removed_keys(after, next@)
                    =~= removed_keys(before, next@) + seq![prev@[i as int]]);
            }
        } else {
            proof {
                assert(removed_keys(after, next@) =~= removed_keys(before, next@));
            }
        }
        i = i + 1;
    }
    let ghost base = ops@.len() as int;
    proof {
        assert(prev@.subrange(0, prev@.len() as int) =~= prev@);
    }
    // Previous index of each surviving next position; the position's own
    // index for a new key (unused there).
    let mut pidx: Vec<usize> = Vec::new();
    let mut reused: Vec<bool> = Vec::new();
    let mut j2: usize = 0;
    while j2 < next.len()
        invariant
            distinct_keys(prev@),
            j2 <= next@.len(),
            pidx@.len() == j2,
            reused@.len() == j2,
            forall|m: int| 0 <= m < j2 ==> (#[trigger] reused@[m] == prev@.contains(
                next@[m])),
            forall|m: int| 0 <= m < j2 && reused@[m]
                ==> (#[trigger] pidx@[m]) as int == key_index(prev@, next@[m]),
        decreases next@.len() - j2,
    {
        if contains_key(prev, next[j2]) {
            let p = find_key(prev, next[j2]);
            pidx.push(p);
            reused.push(true);
        } else {
            pidx.push(0);
            reused.push(false);
        }
        j2 = j2 + 1;
    }
    // Longest strictly increasing chain of previous indices among the
    // surviving positions: dynamic programming over chain lengths (one
    // entry per position: the length of the longest chain ending there),
    // then a backward reconstruction of one longest chain.
    let n = next.len();
    let mut lis: Vec<usize> = Vec::new();
    let mut m: usize = 0;
    while m < n
        invariant
            n == next@.len(),
            pidx@.len() == n,
            reused@.len() == n,
            m <= n,
            lis@.len() == m,
            forall|q: int| 0 <= q < m ==> (#[trigger] lis@[q]) <= q + 1,
            forall|q: int| 0 <= q < m && !reused@[q] ==> (#[trigger] lis@[q]) == 0,
            forall|q: int| 0 <= q < m && reused@[q] ==> 1 <= (#[trigger] lis@[q]),
            forall|q: int, q2: int| 0 <= q < q2 < m && reused@[q] && reused@[q2]
                && pidx@[q] < pidx@[q2] ==> (#[trigger] lis@[q]) < (#[trigger] lis@[q2]),
            forall|q2: int| 0 <= q2 < m && reused@[q2] && (#[trigger] lis@[q2]) > 1
                ==> exists|q: int| 0 <= q < q2 && reused@[q] && pidx@[q] < pidx@[q2]
                    && (#[trigger] lis@[q]) + 1 == lis@[q2],
        decreases n - m,
    {
        let mut best: usize = 0;
        if reused[m] {
            best = 1;
            let mut q: usize = 0;
            while q < m
                invariant
                    m < n,
                    n == next@.len(),
                    pidx@.len() == n,
                    reused@.len() == n,
                    reused@[m as int],
                    lis@.len() == m,
                    forall|q2: int| 0 <= q2 < m ==> (#[trigger] lis@[q2]) <= q2 + 1,
                    q <= m,
                    1 <= best <= m + 1,
                    forall|q2: int| 0 <= q2 < q && reused@[q2]
                        && pidx@[q2] < pidx@[m as int] ==> (#[trigger] lis@[q2]) < best,
                    best == 1 || exists|q2: int| 0 <= q2 < q && reused@[q2]
                        && pidx@[q2] < pidx@[m as int]
                        && (#[trigger] lis@[q2]) + 1 == best,
                decreases m - q,
            {
                if reused[q] && pidx[q] < pidx[m] && lis[q] + 1 > best {
                    best = lis[q] + 1;
                    proof {
                        assert(0 <= q < m && reused@[q as int]
                            && pidx@[q as int] < pidx@[m as int]
                            && lis@[q as int] + 1 == best);
                    }
                }
                q = q + 1;
            }
        }
        let ghost old_lis = lis@;
        lis.push(best);
        proof {
            assert(forall|q: int| 0 <= q < m ==> #[trigger] lis@[q] == old_lis[q]);
            assert(lis@[m as int] == best);
            assert forall|q: int, q2: int| 0 <= q < q2 < m + 1 && reused@[q]
                && reused@[q2] && pidx@[q] < pidx@[q2]
                implies (#[trigger] lis@[q]) < (#[trigger] lis@[q2]) by {
                if q2 == m as int {
                    assert(old_lis[q] < best);
                }
            }
            assert forall|q2: int| 0 <= q2 < m + 1 && reused@[q2]
                && (#[trigger] lis@[q2]) > 1
                implies exists|q: int| 0 <= q < q2 && reused@[q] && pidx@[q] < pidx@[q2]
                    && (#[trigger] lis@[q]) + 1 == lis@[q2] by {
                if q2 < m as int {
                    let q = choose|q: int| 0 <= q < q2 && reused@[q]
                        && pidx@[q] < pidx@[q2]
                        && (#[trigger] old_lis[q]) + 1 == old_lis[q2];
                    assert(lis@[q] + 1 == lis@[q2]);
                } else {
                    let q = choose|q: int| 0 <= q < q2 && reused@[q]
                        && pidx@[q] < pidx@[q2] && (#[trigger] old_lis[q]) + 1 == best;
                    assert(lis@[q] + 1 == lis@[q2]);
                }
            }
        }
        m = m + 1;
    }
    // The end of one longest chain: any position whose table entry is the
    // overall maximum.
    let mut stay: Vec<bool> = Vec::new();
    let mut m2: usize = 0;
    while m2 < n
        invariant
            m2 <= n,
            stay@.len() == m2,
            forall|q: int| 0 <= q < m2 ==> !(#[trigger] stay@[q]),
        decreases n - m2,
    {
        stay.push(false);
        m2 = m2 + 1;
    }
    let mut best_end: usize = n;
    let mut best_len: usize = 0;
    let mut m3: usize = 0;
    while m3 < n
        invariant
            n == next@.len(),
            lis@.len() == n,
            reused@.len() == n,
            m3 <= n,
            best_end <= n,
            forall|q: int| 0 <= q < n && !reused@[q] ==> (#[trigger] lis@[q]) == 0,
            forall|q: int| 0 <= q < m3 ==> (#[trigger] lis@[q]) <= best_len,
            best_len > 0 ==> best_end < n && reused@[best_end as int]
                && lis@[best_end as int] == best_len,
            best_len == 0 ==> best_end == n,
        decreases n - m3,
    {
        if reused[m3] && lis[m3] > best_len {
            best_len = lis[m3];
            best_end = m3;
        } else {
            proof {
                if !reused@[m3 as int] {
                    assert(lis@[m3 as int] == 0);
                }
            }
        }
        m3 = m3 + 1;
    }
    // Walk the chain backwards from its end: each step finds a surviving
    // predecessor with a strictly smaller previous index whose own chain is
    // long enough; the table guarantees one exists at every step.
    let ghost mut marked: Seq<int> = Seq::empty();
    if best_end < n {
        let mut cur = best_end;
        stay.set(cur, true);
        let mut need = lis[best_end];
        proof {
            marked = seq![cur as int];
            assert(stay@.len() == n);
            assert forall|j: int| 0 <= j < n
                implies (#[trigger] stay@[j] <==> marked.contains(j)) by {
                lemma_cons_contains(Seq::<int>::empty(), cur as int, j);
            }
        }
        while need > 1
            invariant
                n == next@.len(),
                lis@.len() == n,
                pidx@.len() == n,
                reused@.len() == n,
                stay@.len() == n,
                best_end < n,
                cur < n,
                reused@[cur as int],
                1 <= need <= lis@[cur as int],
                forall|q2: int| 0 <= q2 < n ==> (#[trigger] lis@[q2]) <= q2 + 1,
                marked.len() == lis@[best_end as int] - need + 1,
                marked.len() >= 1,
                marked[0] == cur as int,
                forall|i1: int, i2: int| 0 <= i1 < i2 < marked.len()
                    ==> #[trigger] marked[i1] < #[trigger] marked[i2]
                        && pidx@[marked[i1]] < pidx@[marked[i2]],
                forall|i: int| 0 <= i < marked.len()
                    ==> 0 <= #[trigger] marked[i] < n && reused@[marked[i]],
                forall|j: int| 0 <= j < n ==> (#[trigger] stay@[j] <==> marked.contains(j)),
                forall|q: int| 0 <= q < n && reused@[q] ==> 1 <= (#[trigger] lis@[q]),
                forall|q: int, q2: int| 0 <= q < q2 < n && reused@[q] && reused@[q2]
                    && pidx@[q] < pidx@[q2]
                    ==> (#[trigger] lis@[q]) < (#[trigger] lis@[q2]),
                forall|q2: int| 0 <= q2 < n && reused@[q2] && (#[trigger] lis@[q2]) > 1
                    ==> exists|q: int| 0 <= q < q2 && reused@[q] && pidx@[q] < pidx@[q2]
                        && (#[trigger] lis@[q]) + 1 == lis@[q2],
            decreases need,
        {
            let mut q: usize = 0;
            let mut found = false;
            while q < cur && !found
                invariant
                    cur < n,
                    n == next@.len(),
                    lis@.len() == n,
                    pidx@.len() == n,
                    reused@.len() == n,
                    q <= cur,
                    need >= 1,
                    forall|q2: int| 0 <= q2 < n ==> (#[trigger] lis@[q2]) <= q2 + 1,
                    found ==> q < cur && reused@[q as int]
                        && pidx@[q as int] < pidx@[cur as int]
                        && lis@[q as int] + 1 >= need,
                    !found ==> forall|q2: int| 0 <= q2 < q
                        ==> !(reused@[q2] && pidx@[q2] < pidx@[cur as int]
                            && (#[trigger] lis@[q2]) + 1 >= need),
                decreases cur - q, (if found { 0int } else { 1int }),
            {
                if reused[q] && pidx[q] < pidx[cur] && lis[q] + 1 >= need {
                    found = true;
                } else {
                    q = q + 1;
                }
            }
            proof {
                // A predecessor always exists: the chain ending here is
                // longer than one, so the table names one step shorter.
                if !found {
                    assert(lis@[cur as int] > 1);
                    let q0 = choose|q0: int| 0 <= q0 < cur as int && reused@[q0]
                        && pidx@[q0] < pidx@[cur as int]
                        && (#[trigger] lis@[q0]) + 1 == lis@[cur as int];
                    assert(lis@[q0] + 1 >= need);
                    assert(false);
                }
            }
            let ghost marked_in = marked;
            stay.set(q, true);
            proof {
                assert(!marked_in.contains(q as int)) by {
                    if marked_in.contains(q as int) {
                        let i = choose|i: int| 0 <= i < marked_in.len()
                            && marked_in[i] == q as int;
                        if i > 0 {
                            assert(marked_in[0] < marked_in[i]);
                        }
                        assert(false);
                    }
                }
                marked = seq![q as int] + marked_in;
                assert(marked[0] == q as int);
                assert(forall|i: int| 0 <= i < marked_in.len()
                    ==> marked[i + 1] == marked_in[i]);
                assert forall|i1: int, i2: int| 0 <= i1 < i2 < marked.len()
                    implies #[trigger] marked[i1] < #[trigger] marked[i2]
                        && pidx@[marked[i1]] < pidx@[marked[i2]] by {
                    if i1 == 0 {
                        assert(marked[i2] == marked_in[i2 - 1]);
                        if i2 > 1 {
                            assert(marked_in[0] < marked_in[i2 - 1]
                                && pidx@[marked_in[0]] < pidx@[marked_in[i2 - 1]]);
                        }
                    } else {
                        assert(marked[i1] == marked_in[i1 - 1]);
                        assert(marked[i2] == marked_in[i2 - 1]);
                    }
                }
                assert forall|j: int| 0 <= j < n
                    implies (#[trigger] stay@[j] <==> marked.contains(j)) by {
                    lemma_cons_contains(marked_in, q as int, j);
                }
            }
            cur = q;
            need = need - 1;
        }
        proof {
            assert(marked.len() == lis@[best_end as int]);
        }
    }
    // Emit the per-position ops: the marked positions are kept in place,
    // every other surviving position moves, every new key is inserted.
    let ghost pre_ops = ops@;
    let ghost mut mk: int = 0;
    let mut j3: usize = 0;
    while j3 < n
        invariant
            distinct_keys(prev@),
            n == next@.len(),
            pidx@.len() == n,
            reused@.len() == n,
            stay@.len() == n,
            j3 <= n,
            forall|m5: int| 0 <= m5 < n ==> (#[trigger] reused@[m5]) == prev@.contains(
                next@[m5]),
            forall|m5: int| 0 <= m5 < n && reused@[m5]
                ==> (#[trigger] pidx@[m5]) as int == key_index(prev@, next@[m5]),
            base == pre_ops.len() as int,
            ops@.len() == base + j3 as int,
            forall|k: int| 0 <= k < base ==> ops@[k] == pre_ops[k],
            forall|m4: int| 0 <= m4 < j3
                ==> op_fits(#[trigger] ops@[base + m4], prev@, next@, m4),
            forall|i1: int, i2: int| 0 <= i1 < i2 < marked.len()
                ==> #[trigger] marked[i1] < #[trigger] marked[i2]
                    && pidx@[marked[i1]] < pidx@[marked[i2]],
            forall|i: int| 0 <= i < marked.len()
                ==> 0 <= #[trigger] marked[i] < n && reused@[marked[i]],
            forall|j: int| 0 <= j < n ==> (#[trigger] stay@[j] <==> marked.contains(j)),
            0 <= mk <= marked.len(),
            forall|i: int| 0 <= i < mk ==> #[trigger] marked[i] < j3,
            forall|i: int| mk <= i < marked.len() ==> #[trigger] marked[i] >= j3,
            update_count(ops@, base, j3 as int) == mk,
            forall|m4: int| 0 <= m4 < j3
                ==> ((#[trigger] ops@[base + m4]) is Update <==> marked.contains(m4)),
        decreases n - j3,
    {
        let ghost ops_in = ops@;
        let ghost mk_in = mk;
        let keep = reused[j3] && stay[j3];
        if !reused[j3] {
            ops.push(EditOp::Insert { key: next[j3] });
        } else if keep {
            ops.push(EditOp::Update { key: next[j3] });
            proof {
                mk = mk + 1;
            }
        } else {
            ops.push(EditOp::Move { key: next[j3] });
        }
        proof {
            assert(forall|k: int| 0 <= k < ops_in.len() ==> ops@[k] == ops_in[k]);
            assert(ops@[base + j3 as int] == ops@.last());
            assert(reused@[j3 as int] == prev@.contains(next@[j3 as int]));
            lemma_update_count_frame(ops@, ops_in, base, j3 as int);
            assert(update_count(ops@, base, j3 as int + 1) == update_count(
                ops@, base, j3 as int) + (if ops@[base + j3 as int] is Update {
                1int
            } else {
                0int
            }));
            if stay@[j3 as int] && reused@[j3 as int] {
                // This position is on the chain: it is the next chain member
                // in position order.
                assert(marked.contains(j3 as int));
                let i0 = choose|i0: int| 0 <= i0 < marked.len()
                    && marked[i0] == j3 as int;
                assert(i0 >= mk_in);
                assert(i0 == mk_in) by {
                    if i0 > mk_in {
                        assert(marked[mk_in] < marked[i0]);
                        assert(marked[mk_in] >= j3 as int);
                        assert(false);
                    }
                }
                assert forall|i: int| 0 <= i < mk implies #[trigger] marked[i]
                    < j3 as int + 1 by {
                    if i < mk_in {
                        assert(marked[i] < j3 as int);
                    } else {
                        assert(i == mk_in);
                    }
                }
                assert forall|i: int| mk <= i < marked.len()
                    implies #[trigger] marked[i] >= j3 as int + 1 by {
                    assert(marked[mk_in] < marked[i]);
                    assert(marked[mk_in] == j3 as int);
                }
            } else {
                assert(!marked.contains(j3 as int));
                assert forall|i: int| mk <= i < marked.len()
                    implies #[trigger] marked[i] >= j3 as int + 1 by {
                    assert(marked[i] >= j3 as int);
                    assert(marked[i] != j3 as int);
                }
            }
            if !reused@[j3 as int] {
                assert(!marked.contains(j3 as int)) by {
                    if marked.contains(j3 as int) {
                        let i0 = choose|i0: int| 0 <= i0 < marked.len()
                            && marked[i0] == j3 as int;
                        assert(reused@[marked[i0]]);
                        assert(false);
                    }
                }
            }
            assert forall|m4: int| 0 <= m4 < j3 + 1
                implies op_fits(#[trigger] ops@[base + m4], prev@, next@, m4) by {
                if m4 < j3 {
                    assert(ops@[base + m4] == ops_in[base + m4]);
                    assert(op_fits(ops_in[base + m4], prev@, next@, m4));
                }
            }
            assert forall|m4: int| 0 <= m4 < j3 + 1
                implies ((#[trigger] ops@[base + m4]) is Update
                    <==> marked.contains(m4)) by {
                if m4 < j3 {
                    assert(ops@[base + m4] == ops_in[base + m4]);
                    assert(ops_in[base + m4] is Update <==> marked.contains(m4));
                }
            }
        }
        j3 = j3 + 1;
    }
    proof {
        assert(distinct_keys(next@));
        assert(base == removed_keys(prev@, next@).len() as int);
        assert(ops@.len() == base + next@.len());
        assert forall|k: int| 0 <= k < base
            implies ops@[k] == (EditOp::Remove {
                key: removed_keys(prev@, next@)[k] }) by {
            assert(ops@[k] == pre_ops[k]);
        }
        assert(forall|j4: int| 0 <= j4 < next@.len()
            ==> op_fits(#[trigger] ops@[base + j4], prev@, next@, j4));
        // The kept positions are exactly the chain the backtrack collected.
        assert(mk == marked.len()) by {
            if mk < marked.len() {
                assert(marked[mk as int] >= n as int);
                assert(marked[mk as int] < n as int);
            }
        }
        assert(update_count(ops@, base, n as int) == marked.len());
        // Kept positions stand in increasing previous-index order.
        assert forall|j1: int, j2: int| 0 <= j1 < j2 < next@.len()
            && (#[trigger] ops@[base + j1]) is Update
            && (#[trigger] ops@[base + j2]) is Update
            implies key_index(prev@, next@[j1]) < key_index(prev@, next@[j2]) by {
            assert(marked.contains(j1) && marked.contains(j2));
            let i1 = choose|i: int| 0 <= i < marked.len() && marked[i] == j1;
            let i2 = choose|i: int| 0 <= i < marked.len() && marked[i] == j2;
            assert(i1 != i2);
            assert(i1 < i2) by {
                if i2 < i1 {
                    assert(marked[i2] < marked[i1]);
                    assert(false);
                }
            }
            assert(pidx@[j1] < pidx@[j2]);
            assert(reused@[j1] && reused@[j2]);
        }
        assert(stays_ordered(ops@, base, prev@, next@));
        // The chain the edit list keeps is one of maximal length.
        assert(is_chain(marked, prev@, next@)) by {
            assert forall|i: int| 0 <= i < marked.len()
                implies 0 <= #[trigger] marked[i] < next@.len()
                    && prev@.contains(next@[marked[i]]) by {
                assert(reused@[marked[i]]);
            }
            assert forall|i1: int, i2: int| 0 <= i1 < i2 < marked.len()
                implies #[trigger] marked[i1] < #[trigger] marked[i2]
                    && key_index(prev@, next@[marked[i1]])
                        < key_index(prev@, next@[marked[i2]]) by {
                assert(reused@[marked[i1]] && reused@[marked[i2]]);
                assert(pidx@[marked[i1]] < pidx@[marked[i2]]);
            }
        }
        assert(exists|ch: Seq<int>| is_chain(ch, prev@, next@)
            && ch.len() == update_count(ops@, base, next@.len() as int)) by {
            assert(is_chain(marked, prev@, next@)
                && marked.len() == update_count(ops@, base, next@.len() as int));
        }
        assert forall|ch: Seq<int>| is_chain(ch, prev@, next@)
            implies ch.len() <= update_count(ops@, base, next@.len() as int) by {
            if ch.len() >= 1 {
                lemma_chain_le_lis(ch, lis@, pidx@, reused@, prev@, next@);
                let last = ch.last();
                assert(0 <= last < n as int) by {
                    assert(ch[ch.len() - 1] == last);
                }
                assert(lis@[last] <= best_len);
                assert(best_len == marked.len()) by {
                    if best_end < n {
                        assert(marked.len() == lis@[best_end as int]);
                    } else {
                        assert(marked.len() == 0);
                    }
                }
            }
        }
    }
    Ok(ops)
}

} // verus!
