use vstd::prelude::*;

use crate::maze::Maze;
use crate::graph::copy_positions;
use crate::state::{cache_view, collect_m, transfer_m, PathCache, State, StateM};

verus! {

broadcast use vstd::set::group_set_axioms, vstd::seq_lib::seq_to_set_is_finite;

/// Two states the search treats as the same stop: standing on the same
/// cell with the same number of keys in hand.
pub open spec fn sim(a: StateM, b: StateM) -> bool {
    a.position == b.position && a.keys == b.keys
}

/// A history never revisits a stop: loop prevention within one branch.
pub open spec fn hist_distinct(h: Seq<StateM>) -> bool {
    forall|x: int, y: int| 0 <= x < y < h.len() ==> !sim(h[x], h[y])
}

/// What the search keeps true of every queued history: nonempty, no
/// repeated stop, every position on the grid, and every state within the
/// key budget `kb` (keys in hand plus keys still lying about).
pub open spec fn hist_wf(m: Maze, kb: nat, h: Seq<StateM>) -> bool {
    &&& h.len() >= 1
    &&& hist_distinct(h)
    &&& forall|t: int| 0 <= t < h.len() ==> m.in_bounds((#[trigger] h[t]).position)
    &&& forall|t: int|
        0 <= t < h.len() ==> (#[trigger] h[t]).keys_left.finite() && h[t].keys
            + h[t].keys_left.len() <= kb
}

/// A history is a run: consecutive states joined by a free move of the
/// walls graph and by the transfer semantics.
pub open spec fn run_ok(m: Maze, h: Seq<StateM>) -> bool {
    forall|t: int|
        0 <= t < h.len() - 1 ==> m.walls_edge((#[trigger] h[t]).position, h[t + 1].position)
            && transfer_m(h[t], h[t + 1].position) == Some(h[t + 1])
}

/// The cells a history passes through, in order.
pub open spec fn path_of(h: Seq<StateM>) -> Seq<(usize, usize)> {
    h.map_values(|s: StateM| s.position)
}

/// One frontier entry's fan-out over its neighbour list, in direction
/// order: a neighbour barred by a locked door without a key is skipped, a
/// stop the history already made is skipped, the first neighbour that is
/// an exit ends the search with the extended path, and every other
/// neighbour contributes an extended history to enqueue.
pub open spec fn burst_m(m: Maze, h: Seq<StateM>, ns: Seq<(usize, usize)>) -> (Option<
    Seq<(usize, usize)>,
>, Seq<Seq<StateM>>)
    decreases ns.len(),
{
    if ns.len() == 0 {
        (None, seq![])
    } else {
        let p = ns[0];
        match transfer_m(h.last(), p) {
            None => burst_m(m, h, ns.drop_first()),
            Some(s2) => {
                if exists|t: int| 0 <= t < h.len() && sim(#[trigger] h[t], s2) {
                    burst_m(m, h, ns.drop_first())
                } else if m.exit_at(p) {
                    (Some(path_of(h.push(s2))), seq![])
                } else {
                    let rest = burst_m(m, h, ns.drop_first());
                    (rest.0, seq![h.push(s2)] + rest.1)
                }
            },
        }
    }
}

/// Five to the `n`-th power: the base exceeds any cell's out-degree, which
/// makes the queue measure drop at every step.
pub open spec fn pow5(n: nat) -> nat
    decreases n,
{
    if n == 0 {
        1
    } else {
        5 * pow5((n - 1) as nat)
    }
}

/// How many distinct stops fit on the grid under key budget `kb`: the cap
/// on any history's length.
pub open spec fn state_cap(m: Maze, kb: nat) -> nat {
    (m.dimensions.0 * m.dimensions.1) as nat * (kb + 1)
}

/// A queued history's contribution to the termination measure: the
/// shorter the history, the heavier it weighs.
pub open spec fn weight(bound: nat, h: Seq<StateM>) -> nat {
    if h.len() <= bound {
        pow5((bound - h.len()) as nat)
    } else {
        0
    }
}

/// The termination measure of the whole queue.
pub open spec fn queue_measure(bound: nat, q: Seq<Seq<StateM>>) -> nat
    decreases q.len(),
{
    if q.len() == 0 {
        0
    } else {
        weight(bound, q[0]) + queue_measure(bound, q.drop_first())
    }
}

/// The breadth-first search over histories, one frontier entry per step:
/// take the oldest history, fan out over the walls-graph neighbours of its
/// last position, answer with the first solution, and otherwise queue the
/// continuations in discovery order.
pub open spec fn bfs_m(m: Maze, kb: nat, q: Seq<Seq<StateM>>) -> Option<Seq<(usize, usize)>>
    decreases queue_measure(state_cap(m, kb), q),
    when forall|t: int| 0 <= t < q.len() ==> hist_wf(m, kb, #[trigger] q[t])
    via bfs_m_decreases
{
    if q.len() == 0 {
        None
    } else {
        let h = q[0];
        let burst = burst_m(m, h, m.spec_neighbours(h.last().position, false));
        if burst.0 is Some {
            burst.0
        } else {
            bfs_m(m, kb, q.drop_first() + burst.1)
        }
    }
}

#[via_fn]
proof fn bfs_m_decreases(m: Maze, kb: nat, q: Seq<Seq<StateM>>) {
    if q.len() > 0 {
        lemma_bfs_step(m, kb, q);
    }
}

/// A transfer keeps the state within the grid's budget: the new position
/// is the target, keys in hand plus keys on the ground never grow, doors
/// and remaining keys only disappear.
pub proof fn lemma_transfer_props(s: StateM, p: (usize, usize), s2: StateM)
    requires
        transfer_m(s, p) == Some(s2),
        s.keys_left.finite(),
    ensures
        s2.position == p,
        s2.keys_left.finite(),
        s2.keys + s2.keys_left.len() <= s.keys + s.keys_left.len(),
        s2.doors.subset_of(s.doors),
        s2.keys_left.subset_of(s.keys_left),
{
}

/// Every neighbour the grid offers lies on the grid, and (for the walls
/// graph) is joined to `p` by a free move.
pub proof fn lemma_neighbours_in_bounds(m: Maze, p: (usize, usize), through_doors: bool)
    requires
        m.in_bounds(p),
    ensures
        forall|t: int|
            0 <= t < m.spec_neighbours(p, through_doors).len() ==> m.in_bounds(
                #[trigger] m.spec_neighbours(p, through_doors)[t],
            ),
        m.spec_neighbours(p, through_doors).len() <= 4,
        !through_doors ==> forall|t: int|
            0 <= t < m.spec_neighbours(p, false).len() ==> m.walls_edge(
                p,
                #[trigger] m.spec_neighbours(p, false)[t],
            ),
{
    let s = m.spec_neighbours(p, through_doors);
    assert forall|t: int| 0 <= t < s.len() implies m.in_bounds(#[trigger] s[t]) by {
        assert(s == m.dir_seg(p, 0, through_doors) + m.dir_seg(p, 1, through_doors) + m.dir_seg(
            p,
            2,
            through_doors,
        ) + m.dir_seg(p, 3, through_doors));
    }
}

/// No history under budget `kb` is longer than the stop count the grid
/// offers: distinct stops are pairs of an on-grid cell and a key count of
/// at most `kb`.
pub proof fn lemma_hist_len_bound(m: Maze, kb: nat, h: Seq<StateM>)
    requires
        hist_wf(m, kb, h),
    ensures
        h.len() <= state_cap(m, kb),
{
    let cols = m.dimensions.1 as int;
    let rows = m.dimensions.0 as int;
    let code = |s: StateM| ((s.position.0 * cols + s.position.1) * (kb + 1) + s.keys) as int;
    let codes = h.map_values(code);
    assert forall|x: int, y: int| 0 <= x < y < codes.len() implies codes[x] != codes[y] by {
        let a = h[x];
        let b = h[y];
        assert(!sim(a, b));
        if code(a) == code(b) {
            let fa = a.position.0 * cols + a.position.1;
            let fb = b.position.0 * cols + b.position.1;
            assert(fa == fb && a.keys == b.keys) by (nonlinear_arith)
                requires
                    0 <= a.keys <= kb,
                    0 <= b.keys <= kb,
                    fa * ((kb + 1) as int) + a.keys == fb * ((kb + 1) as int) + b.keys,
            ;
            crate::graph::lemma_flat_injective(
                a.position.0 as int,
                a.position.1 as int,
                b.position.0 as int,
                b.position.1 as int,
                cols,
            );
            assert(a.position == b.position);
            assert(false);
        }
    }
    assert(codes.no_duplicates());
    let cap = state_cap(m, kb) as int;
    assert forall|t: int| 0 <= t < codes.len() implies 0 <= #[trigger] codes[t] < cap by {
        let s = h[t];
        let f = s.position.0 * cols + s.position.1;
        crate::graph::lemma_flat_range(s.position.0 as int, s.position.1 as int, rows, cols);
        assert(f * ((kb + 1) as int) + s.keys < rows * cols * ((kb + 1) as int))
            by (nonlinear_arith)
            requires
                0 <= f <= rows * cols - 1,
                0 <= s.keys <= kb,
                rows * cols >= 1,
        ;
    }
    codes.unique_seq_to_set();
    vstd::set_lib::lemma_int_range(0, cap);
    assert(codes.to_set().subset_of(vstd::set_lib::set_int_range(0, cap))) by {
        assert forall|x: int| codes.to_set().contains(x) implies vstd::set_lib::set_int_range(
            0,
            cap,
        ).contains(x) by {
            let t = choose|t: int| 0 <= t < codes.len() && codes[t] == x;
            assert(0 <= codes[t] < cap);
        }
    }
    vstd::set_lib::lemma_len_subset(codes.to_set(), vstd::set_lib::set_int_range(0, cap));
}

/// Powers of five are positive.
proof fn lemma_pow5_pos(n: nat)
    ensures
        pow5(n) >= 1,
    decreases n,
{
    if n > 0 {
        lemma_pow5_pos((n - 1) as nat);
    }
}

/// Concatenation splits the queue measure.
proof fn lemma_measure_concat(bound: nat, a: Seq<Seq<StateM>>, b: Seq<Seq<StateM>>)
    ensures
        queue_measure(bound, a + b) == queue_measure(bound, a) + queue_measure(bound, b),
    decreases a.len(),
{
    if a.len() == 0 {
        assert(a + b =~= b);
    } else {
        assert((a + b).drop_first() =~= a.drop_first() + b);
        assert((a + b)[0] == a[0]);
        lemma_measure_concat(bound, a.drop_first(), b);
    }
}

/// A queue whose entries all weigh at most `w` measures at most its
/// length times `w`.
proof fn lemma_measure_bounded(bound: nat, q: Seq<Seq<StateM>>, w: nat)
    requires
        forall|t: int| 0 <= t < q.len() ==> weight(bound, #[trigger] q[t]) <= w,
    ensures
        queue_measure(bound, q) <= q.len() * w,
    decreases q.len(),
{
    if q.len() == 0 {
    } else {
        lemma_measure_bounded(bound, q.drop_first(), w);
        assert(queue_measure(bound, q) <= w + (q.len() - 1) * w);
        assert(w + (q.len() - 1) * w == q.len() * w) by (nonlinear_arith);
    }
}

/// What one fan-out hands back: no more continuations than neighbours,
/// each one the entry's history extended by one well-formed state.
pub proof fn lemma_burst_basic(m: Maze, kb: nat, h: Seq<StateM>, ns: Seq<(usize, usize)>)
    requires
        hist_wf(m, kb, h),
        forall|t: int| 0 <= t < ns.len() ==> m.in_bounds(#[trigger] ns[t]),
    ensures
        burst_m(m, h, ns).1.len() <= ns.len(),
        forall|t: int|
            0 <= t < burst_m(m, h, ns).1.len() ==> hist_wf(m, kb, #[trigger] burst_m(m, h, ns).1[t])
                && burst_m(m, h, ns).1[t].len() == h.len() + 1 && burst_m(m, h, ns).1[t][0] == h[0],
    decreases ns.len(),
{
    if ns.len() == 0 {
    } else {
        let p = ns[0];
        lemma_burst_basic(m, kb, h, ns.drop_first());
        match transfer_m(h.last(), p) {
            None => {},
            Some(s2) => {
                lemma_transfer_props(h.last(), p, s2);
                if exists|t: int| 0 <= t < h.len() && sim(#[trigger] h[t], s2) {
                } else if m.exit_at(p) {
                } else {
                    lemma_ext_wf(m, kb, h, s2, p);
                }
            },
        }
    }
}

/// Extending a history by a fresh stop keeps it well formed.
proof fn lemma_ext_wf(m: Maze, kb: nat, h: Seq<StateM>, s2: StateM, p: (usize, usize))
    requires
        hist_wf(m, kb, h),
        transfer_m(h.last(), p) == Some(s2),
        !(exists|t: int| 0 <= t < h.len() && sim(#[trigger] h[t], s2)),
        m.in_bounds(p),
    ensures
        hist_wf(m, kb, h.push(s2)),
{
    lemma_transfer_props(h.last(), p, s2);
    let ext = h.push(s2);
    assert forall|x: int, y: int| 0 <= x < y < ext.len() implies !sim(ext[x], ext[y]) by {
        if y == ext.len() - 1 {
            assert(!sim(h[x], s2));
        }
    }
    assert forall|t: int| 0 <= t < ext.len() implies m.in_bounds((#[trigger] ext[t]).position) by {
        if t == ext.len() - 1 {
            assert(s2.position == p);
        }
    }
    assert forall|t: int|
        0 <= t < ext.len() implies (#[trigger] ext[t]).keys_left.finite() && ext[t].keys
        + ext[t].keys_left.len() <= kb by {
        if t == ext.len() - 1 {
            assert(h.last().keys + h.last().keys_left.len() <= kb);
        }
    }
}

/// Beyond the basics, a fan-out's continuations are runs again, and a
/// reported solution is the path of a run ending on an exit.
pub proof fn lemma_burst_sound(m: Maze, kb: nat, h: Seq<StateM>, ns: Seq<(usize, usize)>)
    requires
        hist_wf(m, kb, h),
        run_ok(m, h),
        forall|t: int|
            0 <= t < ns.len() ==> m.in_bounds(#[trigger] ns[t]) && m.walls_edge(
                h.last().position,
                ns[t],
            ),
    ensures
        forall|t: int|
            0 <= t < burst_m(m, h, ns).1.len() ==> run_ok(m, #[trigger] burst_m(m, h, ns).1[t]),
        burst_m(m, h, ns).0 matches Some(p) ==> exists|hh: Seq<StateM>|
            run_ok(m, hh) && hh.len() == h.len() + 1 && hh[0] == h[0] && path_of(hh) == p
                && m.exit_at(hh.last().position) && hist_wf(m, kb, hh),
    decreases ns.len(),
{
    if ns.len() == 0 {
    } else {
        let p = ns[0];
        lemma_burst_sound(m, kb, h, ns.drop_first());
        match transfer_m(h.last(), p) {
            None => {},
            Some(s2) => {
                lemma_transfer_props(h.last(), p, s2);
                if exists|t: int| 0 <= t < h.len() && sim(#[trigger] h[t], s2) {
                } else {
                    let ext = h.push(s2);
                    lemma_ext_wf(m, kb, h, s2, p);
                    assert(run_ok(m, ext)) by {
                        assert forall|t: int| 0 <= t < ext.len() - 1 implies m.walls_edge(
                            (#[trigger] ext[t]).position,
                            ext[t + 1].position,
                        ) && transfer_m(ext[t], ext[t + 1].position) == Some(ext[t + 1]) by {
                            if t < h.len() - 1 {
                                assert(m.walls_edge(h[t].position, h[t + 1].position));
                            } else {
                                assert(ext[t] == h.last() && ext[t + 1] == s2);
                                assert(s2.position == p);
                            }
                        }
                    }
                    if m.exit_at(p) {
                        assert(ext.last() == s2);
                        assert(path_of(ext) == burst_m(m, h, ns).0.unwrap());
                    }
                }
            },
        }
    }
}

/// One step of the search: dropping the oldest entry and queueing its
/// continuations keeps every queued history well formed and strictly
/// shrinks the measure.
proof fn lemma_bfs_step(m: Maze, kb: nat, q: Seq<Seq<StateM>>)
    requires
        q.len() >= 1,
        forall|t: int| 0 <= t < q.len() ==> hist_wf(m, kb, #[trigger] q[t]),
    ensures
        ({
            let conts = burst_m(m, q[0], m.spec_neighbours(q[0].last().position, false)).1;
            let q2 = q.drop_first() + conts;
            &&& forall|t: int| 0 <= t < q2.len() ==> hist_wf(m, kb, #[trigger] q2[t])
            &&& queue_measure(state_cap(m, kb), q2) < queue_measure(state_cap(m, kb), q)
        }),
{
    let h = q[0];
    let cap = state_cap(m, kb);
    let ns = m.spec_neighbours(h.last().position, false);
    assert(m.in_bounds(h.last().position));
    lemma_neighbours_in_bounds(m, h.last().position, false);
    lemma_burst_basic(m, kb, h, ns);
    let conts = burst_m(m, h, ns).1;
    let q2 = q.drop_first() + conts;
    assert forall|t: int| 0 <= t < q2.len() implies hist_wf(m, kb, #[trigger] q2[t]) by {
        if t < q.len() - 1 {
            assert(q2[t] == q[t + 1]);
        } else {
            assert(q2[t] == conts[t - (q.len() - 1)]);
        }
    }
    lemma_hist_len_bound(m, kb, h);
    lemma_measure_concat(cap, q.drop_first(), conts);
    if h.len() == cap {
        if conts.len() > 0 {
            lemma_hist_len_bound(m, kb, conts[0]);
            assert(false);
        }
        assert(queue_measure(cap, conts) == 0);
        assert(weight(cap, h) == 1);
    } else {
        let w = pow5((cap - h.len() - 1) as nat);
        assert forall|t: int| 0 <= t < conts.len() implies weight(cap, #[trigger] conts[t])
            <= w by {
            assert(conts[t].len() == h.len() + 1);
        }
        lemma_measure_bounded(cap, conts, w);
        lemma_pow5_pos((cap - h.len() - 1) as nat);
        assert(queue_measure(cap, conts) <= conts.len() * w);
        assert(conts.len() * w <= 4 * w) by (nonlinear_arith)
            requires
                0 <= conts.len() <= 4,
                w >= 0,
        ;
        assert(weight(cap, h) == pow5((cap - h.len()) as nat));
        assert(pow5((cap - h.len()) as nat) == 5 * w);
    }
    assert(queue_measure(cap, q) == weight(cap, h) + queue_measure(cap, q.drop_first()));
}

/// The search's answer is sound: whatever `bfs_m` returns on a queue of
/// runs from the seed `s0` is the path of such a run ending on an exit.
pub proof fn lemma_bfs_sound(m: Maze, kb: nat, s0: StateM, q: Seq<Seq<StateM>>)
    requires
        forall|t: int|
            0 <= t < q.len() ==> hist_wf(m, kb, #[trigger] q[t]) && run_ok(m, q[t]) && q[t][0]
                == s0,
    ensures
        bfs_m(m, kb, q) matches Some(p) ==> exists|hh: Seq<StateM>|
            run_ok(m, hh) && hh.len() >= 1 && hh[0] == s0 && path_of(hh) == p && m.exit_at(
                hh.last().position,
            ) && hist_wf(m, kb, hh),
    decreases queue_measure(state_cap(m, kb), q),
{
    if q.len() == 0 {
    } else {
        let h = q[0];
        let ns = m.spec_neighbours(h.last().position, false);
        lemma_neighbours_in_bounds(m, h.last().position, false);
        lemma_burst_basic(m, kb, h, ns);
        lemma_burst_sound(m, kb, h, ns);
        let burst = burst_m(m, h, ns);
        if burst.0 is Some {
        } else {
            lemma_bfs_step(m, kb, q);
            let q2 = q.drop_first() + burst.1;
            assert forall|t: int|
                0 <= t < q2.len() implies hist_wf(m, kb, #[trigger] q2[t]) && run_ok(m, q2[t])
                && q2[t][0] == s0 by {
                if t < q.len() - 1 {
                    assert(q2[t] == q[t + 1]);
                } else {
                    assert(q2[t] == burst.1[t - (q.len() - 1)]);
                }
            }
            lemma_bfs_sound(m, kb, s0, q2);
        }
    }
}

/// A history as the model sees it.
pub open spec fn hist_model(h: Seq<State>) -> Seq<StateM> {
    h.map_values(|s: State| s.m())
}

/// A queue of histories as the model sees it.
pub open spec fn queue_model(q: Seq<Vec<State>>) -> Seq<Seq<StateM>> {
    q.map_values(|h: Vec<State>| hist_model(h@))
}

/// The states a queued history holds, as the executable search needs
/// them: well formed, their door graphs sized to the maze, standing on
/// the grid.
pub open spec fn hist_exec_wf(m: Maze, h: Seq<State>) -> bool {
    forall|t: int|
        0 <= t < h.len() ==> (#[trigger] h[t]).wf() && h[t].doors_graph.rows == m.dimensions.0
            && h[t].doors_graph.cols == m.dimensions.1 && m.in_bounds(h[t].position)
}

/// An optional path, seen as its sequence of cells.
pub open spec fn opt_path_view(r: Option<Vec<(usize, usize)>>) -> Option<Seq<(usize, usize)>> {
    match r {
        Some(v) => Some(v@),
        None => None,
    }
}

/// The key budget a search from `s` can ever spend: keys in hand plus
/// keys still lying about.
pub open spec fn search_kb(s: StateM) -> nat {
    s.keys + s.keys_left.len()
}

/// The state a search is seeded with: a key lying on the very cell the
/// search starts from is collected immediately, before the first move.
pub open spec fn seeded(s: StateM) -> StateM {
    collect_m(s, s.position)
}

/// What a search from state `s` on maze `m` returns: the one-cell path
/// when it already stands on an exit, otherwise the answer of the
/// breadth-first exploration seeded with `seeded(s)` alone.  Both engines
/// return exactly this, which is what makes their answers
/// interchangeable.
pub open spec fn search_result(m: Maze, s: StateM) -> Option<Seq<(usize, usize)>> {
    if m.exit_at(s.position) {
        Some(seq![s.position])
    } else {
        bfs_m(m, search_kb(seeded(s)), seq![seq![seeded(s)]])
    }
}

/// Whether this state makes a stop the history already made: same cell,
/// same number of keys in hand.  The per-task revisit test of the search;
/// a concurrent host's tasks can call it too.
#[verifier::loop_isolation(false)]
pub fn history_contains(h: &Vec<State>, s: &State) -> (r: bool)
    ensures
        r == exists|t: int| 0 <= t < h@.len() && sim(#[trigger] hist_model(h@)[t], s.m()),
{
    let mut i: usize = 0;
    while i < h.len()
        invariant
            i <= h@.len(),
            forall|t: int| 0 <= t < i ==> !sim(#[trigger] hist_model(h@)[t], s.m()),
        decreases h@.len() - i,
    {
        let e = &h[i];
        if e.position.0 == s.position.0 && e.position.1 == s.position.1 && e.keys == s.keys {
            proof {
                assert(e.position == s.position);
                assert(sim(hist_model(h@)[i as int], s.m()));
            }
            return true;
        }
        i += 1;
    }
    false
}

/// A deep copy of a history.
#[verifier::loop_isolation(false)]
fn clone_history(h: &Vec<State>) -> (r: Vec<State>)
    requires
        forall|t: int| 0 <= t < h@.len() ==> (#[trigger] h@[t]).wf(),
    ensures
        r@.len() == h@.len(),
        forall|t: int|
            0 <= t < h@.len() ==> (#[trigger] r@[t]).m() == h@[t].m() && r@[t].wf()
                && r@[t].position == h@[t].position && r@[t].doors_graph.rows
                == h@[t].doors_graph.rows && r@[t].doors_graph.cols == h@[t].doors_graph.cols,
        hist_model(r@) == hist_model(h@),
{
    let mut r: Vec<State> = Vec::new();
    let mut i: usize = 0;
    while i < h.len()
        invariant
            i <= h@.len(),
            r@.len() == i,
            forall|t: int|
                0 <= t < i ==> (#[trigger] r@[t]).m() == h@[t].m() && r@[t].wf()
                    && r@[t].position == h@[t].position && r@[t].doors_graph.rows
                    == h@[t].doors_graph.rows && r@[t].doors_graph.cols
                    == h@[t].doors_graph.cols,
        decreases h@.len() - i,
    {
        r.push(h[i].duplicate());
        i += 1;
    }
    proof {
        assert(hist_model(r@) =~= hist_model(h@));
    }
    r
}

/// The cells a history passes through, computed.
#[verifier::loop_isolation(false)]
fn positions_of(h: &Vec<State>) -> (r: Vec<(usize, usize)>)
    ensures
        r@ == path_of(hist_model(h@)),
{
    let mut r: Vec<(usize, usize)> = Vec::new();
    let mut i: usize = 0;
    while i < h.len()
        invariant
            i <= h@.len(),
            r@.len() == i,
            forall|t: int| 0 <= t < i ==> #[trigger] r@[t] == h@[t].position,
        decreases h@.len() - i,
    {
        r.push(h[i].position);
        i += 1;
    }
    proof {
        assert(r@ =~= path_of(hist_model(h@)));
    }
    r
}

impl Maze {
    /// Whether the cell is an exit, read off the grid.
    fn is_exit_cell(&self, p: (usize, usize)) -> (r: bool)
        requires
            self.wf(),
            self.in_bounds(p),
        ensures
            r == self.exit_at(p),
    {
        self.fields[p.0][p.1].exit
    }

    /// One frontier entry's fan-out, joined: every neighbour is expanded
    /// as an independent task against the entry's own history — attempt
    /// the transfer, skip a stop the history already made — and the
    /// reports are drained in direction order: the first task that landed
    /// on an exit yields the answer, the others hand back their extended
    /// histories for the queue.
    #[verifier::loop_isolation(false)]
    pub fn expand_entry(&self, history: &Vec<State>, neighbours: &Vec<(usize, usize)>) -> (r: (
        Option<Vec<(usize, usize)>>,
        Vec<Vec<State>>,
    ))
        requires
            self.wf(),
            history@.len() >= 1,
            hist_exec_wf(*self, history@),
            neighbours@ == self.spec_neighbours(history@.last().position, false),
        ensures
            ({
                let burst = burst_m(*self, hist_model(history@), neighbours@);
                match r.0 {
                    Some(v) => burst.0 == Some(v@),
                    None => {
                        &&& burst.0 is None
                        &&& queue_model(r.1@) == burst.1
                        &&& forall|t: int|
                            0 <= t < r.1@.len() ==> hist_exec_wf(*self, (#[trigger] r.1@[t])@)
                                && r.1@[t]@.len() == history@.len() + 1
                    },
                }
            }),
    {
        let ghost hm = hist_model(history@);
        let ghost full = burst_m(*self, hm, neighbours@);
        let last_index = history.len() - 1;
        let current = &history[last_index];
        proof {
            assert(hm.last() == current.m());
            lemma_neighbours_in_bounds(*self, current.position, false);
            assert(neighbours@.skip(0) =~= neighbours@);
        }
        let mut conts: Vec<Vec<State>> = Vec::new();
        let mut d: usize = 0;
        while d < neighbours.len()
            invariant
                d <= neighbours@.len(),
                full.0 == burst_m(*self, hm, neighbours@.skip(d as int)).0,
                full.1 == queue_model(conts@) + burst_m(*self, hm, neighbours@.skip(d as int)).1,
                forall|t: int|
                    0 <= t < conts@.len() ==> hist_exec_wf(*self, (#[trigger] conts@[t])@)
                        && conts@[t]@.len() == history@.len() + 1,
            decreases neighbours@.len() - d,
        {
            let ghost rest = neighbours@.skip(d as int);
            proof {
                assert(rest[0] == neighbours@[d as int]);
                assert(rest.drop_first() =~= neighbours@.skip(d as int + 1));
            }
            let node = neighbours[d];
            proof {
                assert(self.in_bounds(node));
                assert(current.doors_graph.in_bounds(current.position));
            }
            let maybe = current.transfer_state(&node);
            match maybe {
                None => {
                    proof {
                        assert(transfer_m(hm.last(), node) == None::<StateM>);
                    }
                },
                Some(new_state) => {
                    proof {
                        assert(transfer_m(hm.last(), node) == Some(new_state.m()));
                    }
                    let revisits = history_contains(history, &new_state);
                    if !revisits {
                        if self.is_exit_cell(node) {
                            let mut path = positions_of(history);
                            path.push(node);
                            proof {
                                assert(new_state.m().position == node);
                                assert(path@ =~= path_of(hm.push(new_state.m())));
                                assert(full.0 == Some(path@));
                            }
                            return (Some(path), conts);
                        } else {
                            let mut nh = clone_history(history);
                            nh.push(new_state);
                            let ghost conts_before = conts@;
                            proof {
                                assert(hist_model(nh@) =~= hm.push(new_state.m()));
                                assert(hist_exec_wf(*self, nh@));
                            }
                            conts.push(nh);
                            proof {
                                assert(queue_model(conts@) =~= queue_model(conts_before).push(
                                    hm.push(new_state.m()),
                                ));
                                assert(queue_model(conts_before) + (seq![hm.push(new_state.m())]
                                    + burst_m(*self, hm, rest.drop_first()).1) =~= queue_model(
                                    conts@,
                                ) + burst_m(*self, hm, rest.drop_first()).1);
                            }
                        }
                    }
                },
            }
            d += 1;
        }
        proof {
            assert(neighbours@.skip(neighbours@.len() as int)
                =~= Seq::<(usize, usize)>::empty());
            assert(full.1 =~= queue_model(conts@));
        }
        (None, conts)
    }
}

impl Maze {
    /// The engines' shared core: breadth-first over the history queue,
    /// one `expand_entry` fan-out per frontier entry, first answer wins.
    #[verifier::loop_isolation(false)]
    fn search_core(&self, state: State) -> (r: Option<Vec<(usize, usize)>>)
        requires
            self.wf(),
            state.wf(),
            state.doors_graph.rows == self.dimensions.0,
            state.doors_graph.cols == self.dimensions.1,
            self.in_bounds(state.position),
        ensures
            opt_path_view(r) == search_result(*self, state.m()),
    {
        let ghost original = state.m();
        if self.is_exit_cell(state.position) {
            let mut v: Vec<(usize, usize)> = Vec::new();
            v.push(state.position);
            proof {
                assert(v@ =~= seq![original.position]);
            }
            return Some(v);
        }
        let mut state = state;
        let start_position = state.position;
        state.collect_key(&start_position);
        let ghost sm = state.m();
        let ghost kb = search_kb(sm);
        let ghost cap = state_cap(*self, kb);
        proof {
            assert(sm == seeded(original));
        }
        let walls_graph = self.get_walls_graph();
        let mut queue: Vec<Vec<State>> = Vec::new();
        let mut seed: Vec<State> = Vec::new();
        seed.push(state);
        queue.push(seed);
        proof {
            assert(hist_model(queue@[0]@) =~= seq![sm]);
            assert(queue_model(queue@) =~= seq![seq![sm]]);
            assert(hist_wf(*self, kb, seq![sm]));
        }
        while queue.len() > 0
            invariant
                walls_graph.wf(),
                walls_graph.rows == self.dimensions.0,
                walls_graph.cols == self.dimensions.1,
                forall|p: (usize, usize)|
                    walls_graph.in_bounds(p) ==> (#[trigger] walls_graph.adj@[walls_graph.flat(
                        p,
                    )])@ == self.spec_neighbours(p, false),
                forall|t: int|
                    0 <= t < queue@.len() ==> (#[trigger] queue@[t])@.len() >= 1 && hist_exec_wf(
                        *self,
                        queue@[t]@,
                    ),
                forall|t: int|
                    0 <= t < queue@.len() ==> hist_wf(
                        *self,
                        kb,
                        hist_model((#[trigger] queue@[t])@),
                    ) && run_ok(*self, hist_model(queue@[t]@)) && hist_model(queue@[t]@)[0] == sm,
                bfs_m(*self, kb, queue_model(queue@)) == bfs_m(*self, kb, seq![seq![sm]]),
            decreases queue_measure(cap, queue_model(queue@)),
        {
            let ghost qm_before = queue_model(queue@);
            proof {
                assert forall|t: int| 0 <= t < qm_before.len() implies hist_wf(
                    *self,
                    kb,
                    #[trigger] qm_before[t],
                ) && run_ok(*self, qm_before[t]) && qm_before[t][0] == sm by {
                    assert(qm_before[t] == hist_model(queue@[t]@));
                }
            }
            let current_history = queue.remove(0);
            proof {
                assert(queue_model(queue@) =~= qm_before.drop_first());
            }
            let ghost hm = hist_model(current_history@);
            let last_index = current_history.len() - 1;
            let current_position = current_history[last_index].position;
            proof {
                assert(hm.last() == current_history@.last().m());
                assert(hm.last().position == current_position);
                assert(self.in_bounds(current_position));
            }
            let neighbours = walls_graph.neighbours_of(current_position);
            proof {
                assert(neighbours@ == self.spec_neighbours(current_position, false));
                lemma_neighbours_in_bounds(*self, current_position, false);
                lemma_burst_basic(*self, kb, hm, neighbours@);
                lemma_burst_sound(*self, kb, hm, neighbours@);
            }
            let expanded = self.expand_entry(&current_history, &neighbours);
            let sol = expanded.0;
            let mut conts = expanded.1;
            let ghost burst = burst_m(*self, hm, neighbours@);
            match sol {
                Some(path) => {
                    proof {
                        assert(burst.0 == Some(path@));
                        assert(bfs_m(*self, kb, qm_before) == Some(path@));
                    }
                    return Some(path);
                },
                None => {
                    let ghost conts_m = queue_model(conts@);
                    let ghost qrest = queue_model(queue@);
                    queue.append(&mut conts);
                    proof {
                        assert(conts_m == burst.1);
                        assert(queue_model(queue@) =~= qrest + conts_m);
                        let q2 = qm_before.drop_first() + burst.1;
                        assert(queue_model(queue@) =~= q2);
                        lemma_bfs_step(*self, kb, qm_before);
                        assert(bfs_m(*self, kb, qm_before) == bfs_m(*self, kb, q2));
                        assert forall|t: int|
                            0 <= t < queue@.len() implies (#[trigger] queue@[t])@.len() >= 1
                            && hist_exec_wf(*self, queue@[t]@) by {
                            assert(hist_model(queue@[t]@) == q2[t]);
                        }
                        assert forall|t: int| 0 <= t < queue@.len() implies hist_wf(
                            *self,
                            kb,
                            hist_model((#[trigger] queue@[t])@),
                        ) && run_ok(*self, hist_model(queue@[t]@)) && hist_model(queue@[t]@)[0]
                            == sm by {
                            assert(hist_model(queue@[t]@) == q2[t]);
                            if t >= qrest.len() {
                                assert(q2[t] == burst.1[t - qrest.len()]);
                                assert(burst.1[t - qrest.len()][0] == hm[0]);
                            }
                        }
                    }
                },
            }
        }
        proof {
            assert(queue_model(queue@) =~= Seq::<Seq<StateM>>::empty());
        }
        None
    }

    /// The sequential engine: the breadth-first search run entirely on
    /// the calling thread.  A key lying on the seed cell is collected
    /// before the first move.  The result is pinned to `search_result`,
    /// so any two runs from equal states return the same answer.
    pub fn search_for_shortest_path(&self, state: State) -> (r: Option<Vec<(usize, usize)>>)
        requires
            self.wf(),
            state.wf(),
            state.doors_graph.rows == self.dimensions.0,
            state.doors_graph.cols == self.dimensions.1,
            self.in_bounds(state.position),
        ensures
            opt_path_view(r) == search_result(*self, state.m()),
            r matches Some(p) ==> p@.len() >= 1 && p@[0] == state.position && self.exit_at(
                p@[p@.len() - 1],
            ),
    {
        let r = self.search_core(state);
        proof {
            lemma_search_result_sound(*self, state.m());
        }
        r
    }

    /// The fan-out engine: per frontier entry, the per-neighbour tasks of
    /// `expand_entry` run independently of each other and are joined
    /// before their reports are drained, exactly as a concurrent host
    /// would run them; here they run in direction order on the calling
    /// thread.  A key lying on the seed cell is collected before the
    /// first move.  The answer is pinned to the same `search_result` as
    /// the sequential engine's, so the two always agree.
    pub fn search_for_shortest_path_parallel(&self, state: State) -> (r: Option<
        Vec<(usize, usize)>,
    >)
        requires
            self.wf(),
            state.wf(),
            state.doors_graph.rows == self.dimensions.0,
            state.doors_graph.cols == self.dimensions.1,
            self.in_bounds(state.position),
        ensures
            opt_path_view(r) == search_result(*self, state.m()),
            r matches Some(p) ==> p@.len() >= 1 && p@[0] == state.position && self.exit_at(
                p@[p@.len() - 1],
            ),
    {
        let r = self.search_core(state);
        proof {
            lemma_search_result_sound(*self, state.m());
        }
        r
    }
}

/// Whatever the search returns starts where the search stood and ends on
/// an exit, and is the path of an actual run of the transfer semantics.
pub proof fn lemma_search_result_sound(m: Maze, s: StateM)
    requires
        m.wf(),
        m.in_bounds(s.position),
        s.keys_left.finite(),
    ensures
        search_result(m, s) matches Some(p) ==> p.len() >= 1 && p[0] == s.position && m.exit_at(
            p[p.len() - 1],
        ),
        search_result(m, s) matches Some(p) ==> exists|hh: Seq<StateM>|
            run_ok(m, hh) && hh.len() >= 1 && hh[0] == seeded(s) && path_of(hh) == p && m.exit_at(
                hh.last().position,
            ),
{
    if m.exit_at(s.position) {
        match search_result(m, s) {
            Some(p) => {
                let hh = seq![seeded(s)];
                assert(seeded(s).position == s.position);
                assert(path_of(hh) =~= p);
                assert(run_ok(m, hh) && hh[0] == seeded(s) && m.exit_at(hh.last().position));
            },
            None => {},
        }
    } else {
        let sd = seeded(s);
        let kb = search_kb(sd);
        assert(sd.position == s.position);
        assert(sd.keys_left.finite());
        assert(hist_wf(m, kb, seq![sd]));
        lemma_bfs_sound(m, kb, sd, seq![seq![sd]]);
        match search_result(m, s) {
            Some(p) => {
                let hh = choose|hh: Seq<StateM>|
                    run_ok(m, hh) && hh.len() >= 1 && hh[0] == sd && path_of(hh) == p && m.exit_at(
                        hh.last().position,
                    ) && hist_wf(m, kb, hh);
                assert(p[0] == hh[0].position);
                assert(p[p.len() - 1] == hh.last().position);
            },
            None => {},
        }
    }
}

impl Maze {
    /// Live access to the canonical search state, for an interaction
    /// layer that moves an actor and applies its own door and key
    /// bookkeeping directly; the state is materialised first if absent.
    pub fn get_state_mut(&mut self) -> (r: &mut State)
        requires
            old(self).wf(),
        ensures
            (match old(self).state {
                Some(st) => *r == st,
                None => r.m() == old(self).initial_m() && r.wf() && r.shortest_path
                    == PathCache::Unknown,
            }),
            final(self).state == Some(*final(r)),
            final(self).fields == old(self).fields,
            final(self).dimensions == old(self).dimensions,
            final(self).start == old(self).start,
            final(self).exits == old(self).exits,
    {
        if self.state.is_none() {
            let st = State::create_from_maze(self);
            self.state = Some(st);
        }
        self.state.as_mut().unwrap()
    }

    /// The facade over the engines: lazily materialises the canonical
    /// search state, runs the fan-out engine once, and caches the outcome.
    /// A later call returns the cached answer without searching again; a
    /// "no path" outcome is cached as such, so it stays distinguishable
    /// from "not yet run".
    pub fn get_shortest_path(&mut self) -> (r: Option<Vec<(usize, usize)>>)
        requires
            old(self).wf(),
            old(self).state matches Some(st) ==> st.wf() && st.doors_graph.rows == old(
                self,
            ).dimensions.0 && st.doors_graph.cols == old(self).dimensions.1 && old(
                self,
            ).in_bounds(st.position),
        ensures
            final(self).wf(),
            final(self).fields == old(self).fields,
            final(self).dimensions == old(self).dimensions,
            final(self).start == old(self).start,
            final(self).exits == old(self).exits,
            final(self).state matches Some(st2) ==> st2.wf() && st2.doors_graph.rows == old(
                self,
            ).dimensions.0 && st2.doors_graph.cols == old(self).dimensions.1 && old(
                self,
            ).in_bounds(st2.position),
            match final(self).state {
                Some(st2) => cache_view(st2.shortest_path) == Some(opt_path_view(r)),
                None => false,
            },
            match old(self).state {
                Some(st) => match cache_view(st.shortest_path) {
                    Some(prev) => opt_path_view(r) == prev && *final(self) == *old(self),
                    None => {
                        &&& opt_path_view(r) == search_result(*old(self), st.m())
                        &&& match final(self).state {
                            Some(st2) => st2.m() == st.m() && st2.position == st.position
                                && st2.keys == st.keys,
                            None => false,
                        }
                        &&& r matches Some(p) ==> p@.len() >= 1 && p@[0] == st.position && old(
                            self,
                        ).exit_at(p@[p@.len() - 1])
                    },
                },
                None => {
                    &&& opt_path_view(r) == search_result(*old(self), old(self).initial_m())
                    &&& match final(self).state {
                        Some(st2) => st2.m() == old(self).initial_m(),
                        None => false,
                    }
                    &&& r matches Some(p) ==> p@.len() >= 1 && p@[0] == old(self).start && old(
                        self,
                    ).exit_at(p@[p@.len() - 1])
                },
            },
    {
        match &self.state {
            Some(st) => {
                match &st.shortest_path {
                    PathCache::Found(p) => {
                        let out = copy_positions(p);
                        return Some(out);
                    },
                    PathCache::NoPath => {
                        return None;
                    },
                    PathCache::Unknown => {},
                }
            },
            None => {},
        }
        let mut canonical: State = match &self.state {
            Some(st) => st.duplicate(),
            None => State::create_from_maze(self),
        };
        let result = self.search_for_shortest_path_parallel(canonical.duplicate());
        proof {
            lemma_search_result_sound(*self, canonical.m());
        }
        let cache = match &result {
            Some(p) => PathCache::Found(copy_positions(p)),
            None => PathCache::NoPath,
        };
        canonical.shortest_path = cache;
        self.state = Some(canonical);
        result
    }
}

/// A walk over free, door-less boundaries: what a keyless searcher could
/// ever follow.
pub open spec fn door_free_walk(m: Maze, p: Seq<(usize, usize)>) -> bool {
    p.len() >= 1 && forall|t: int|
        #![trigger p[t], p[t + 1]]
        0 <= t < p.len() - 1 ==> m.walls_edge(p[t], p[t + 1]) && !m.doors_edge(p[t], p[t + 1])
}

/// The run that follows the first `i + 1` cells of a walk, step by step
/// from `s0`.
pub open spec fn walk_run(s0: StateM, w: Seq<(usize, usize)>, i: int) -> Seq<StateM>
    decreases i,
{
    if i <= 0 {
        seq![s0]
    } else {
        let prev = walk_run(s0, w, i - 1);
        match transfer_m(prev.last(), w[i]) {
            Some(s2) => prev.push(s2),
            None => prev,
        }
    }
}

/// Following a door-free walk never fails: each transfer succeeds, the
/// run tracks the walk's cells, and its doors stay a subset of the
/// maze's.
proof fn lemma_walk_run_props(m: Maze, s0: StateM, w: Seq<(usize, usize)>, i: int)
    requires
        door_free_walk(m, w),
        s0.position == w[0],
        s0.doors.subset_of(m.door_edges()),
        s0.keys_left.finite(),
        0 <= i < w.len(),
    ensures
        walk_run(s0, w, i).len() == i + 1,
        walk_run(s0, w, i)[0] == s0,
        forall|t: int| 0 <= t <= i ==> (#[trigger] walk_run(s0, w, i)[t]).position == w[t],
        walk_run(s0, w, i).last().doors.subset_of(m.door_edges()),
        walk_run(s0, w, i).last().keys_left.finite(),
        i < w.len() - 1 ==> (transfer_m(walk_run(s0, w, i).last(), w[i + 1]) matches Some(s2)
            && walk_run(s0, w, i + 1) == walk_run(s0, w, i).push(s2)),
    decreases i,
{
    let run = walk_run(s0, w, i);
    if i > 0 {
        lemma_walk_run_props(m, s0, w, i - 1);
        let prev = walk_run(s0, w, i - 1);
        let s2 = choose|s2: StateM| transfer_m(prev.last(), w[i]) == Some(s2);
        lemma_transfer_props(prev.last(), w[i], s2);
        assert(run == prev.push(s2));
        assert forall|x: ((usize, usize), (usize, usize))| run.last().doors.contains(x)
            implies m.door_edges().contains(x) by {
            assert(prev.last().doors.contains(x));
        }
    }
    if i < w.len() - 1 {
        assert(m.walls_edge(w[i], w[i + 1]) && !m.doors_edge(w[i], w[i + 1]));
        assert(!m.door_edges().contains((w[i], w[i + 1])));
        assert(run.last().position == w[i]);
        assert(!run.last().doors.contains((run.last().position, w[i + 1])));
    }
}

/// If some neighbour's task lands on an exit with a fresh stop, the
/// fan-out reports a solution.
proof fn lemma_burst_finds_exit(
    m: Maze,
    h: Seq<StateM>,
    ns: Seq<(usize, usize)>,
    j: int,
    s2: StateM,
)
    requires
        0 <= j < ns.len(),
        transfer_m(h.last(), ns[j]) == Some(s2),
        !(exists|t: int| 0 <= t < h.len() && sim(#[trigger] h[t], s2)),
        m.exit_at(ns[j]),
    ensures
        burst_m(m, h, ns).0 is Some,
    decreases j,
{
    if j > 0 {
        let p = ns[0];
        assert(ns.drop_first()[j - 1] == ns[j]);
        match transfer_m(h.last(), p) {
            None => {
                lemma_burst_finds_exit(m, h, ns.drop_first(), j - 1, s2);
            },
            Some(s0b) => {
                if exists|t: int| 0 <= t < h.len() && sim(#[trigger] h[t], s0b) {
                    lemma_burst_finds_exit(m, h, ns.drop_first(), j - 1, s2);
                } else if m.exit_at(p) {
                } else {
                    lemma_burst_finds_exit(m, h, ns.drop_first(), j - 1, s2);
                }
            },
        }
    }
}

/// If a neighbour's task makes a fresh stop short of an exit and no task
/// of the burst lands a solution, the extended history is among the
/// continuations handed back.
proof fn lemma_burst_keeps_continuation(
    m: Maze,
    h: Seq<StateM>,
    ns: Seq<(usize, usize)>,
    j: int,
    s2: StateM,
)
    requires
        0 <= j < ns.len(),
        transfer_m(h.last(), ns[j]) == Some(s2),
        !(exists|t: int| 0 <= t < h.len() && sim(#[trigger] h[t], s2)),
        !m.exit_at(ns[j]),
        burst_m(m, h, ns).0 is None,
    ensures
        exists|t: int|
            0 <= t < burst_m(m, h, ns).1.len() && burst_m(m, h, ns).1[t] == h.push(s2),
    decreases j,
{
    let p = ns[0];
    if j == 0 {
        assert(burst_m(m, h, ns).1[0] == h.push(s2));
    } else {
        assert(ns.drop_first()[j - 1] == ns[j]);
        match transfer_m(h.last(), p) {
            None => {
                lemma_burst_keeps_continuation(m, h, ns.drop_first(), j - 1, s2);
            },
            Some(s0b) => {
                if exists|t: int| 0 <= t < h.len() && sim(#[trigger] h[t], s0b) {
                    lemma_burst_keeps_continuation(m, h, ns.drop_first(), j - 1, s2);
                } else if m.exit_at(p) {
                    assert(false);
                } else {
                    lemma_burst_keeps_continuation(m, h, ns.drop_first(), j - 1, s2);
                    let rest = burst_m(m, h, ns.drop_first());
                    let t = choose|t: int| 0 <= t < rest.1.len() && rest.1[t] == h.push(s2);
                    assert(burst_m(m, h, ns).1[t + 1] == h.push(s2));
                }
            },
        }
    }
}

/// A solution a fan-out reports extends the entry's history by one cell.
proof fn lemma_burst_sol_len(m: Maze, h: Seq<StateM>, ns: Seq<(usize, usize)>)
    ensures
        burst_m(m, h, ns).0 matches Some(p) ==> p.len() == h.len() + 1,
    decreases ns.len(),
{
    if ns.len() > 0 {
        lemma_burst_sol_len(m, h, ns.drop_first());
    }
}

/// The queue stays layered: histories never get shorter toward the back,
/// and the newest is at most one cell longer than the oldest — the
/// first-in-first-out discipline of breadth-first search.
pub open spec fn queue_layered(q: Seq<Seq<StateM>>) -> bool {
    forall|a: int, b: int|
        #![trigger q[a], q[b]]
        0 <= a <= b < q.len() ==> q[a].len() <= q[b].len() && q[b].len() <= q[a].len() + 1
}

/// The search finds a way: as long as some queued history is the run
/// along a duplicate-free door-free walk that ends on an exit, the
/// answer is a path; by the first-in-first-out layering it is no longer
/// than that walk.
proof fn lemma_bfs_complete(
    m: Maze,
    kb: nat,
    q: Seq<Seq<StateM>>,
    s0: StateM,
    w: Seq<(usize, usize)>,
    i: int,
    e: int,
)
    requires
        forall|t: int| 0 <= t < q.len() ==> hist_wf(m, kb, #[trigger] q[t]),
        queue_layered(q),
        door_free_walk(m, w),
        w.no_duplicates(),
        m.exit_at(w[w.len() - 1]),
        s0.position == w[0],
        s0.doors.subset_of(m.door_edges()),
        s0.keys_left.finite(),
        0 <= i < w.len() - 1,
        0 <= e < q.len(),
        q[e] == walk_run(s0, w, i),
    ensures
        bfs_m(m, kb, q) matches Some(p) && p.len() <= w.len(),
    decreases queue_measure(state_cap(m, kb), q),
{
    lemma_walk_run_props(m, s0, w, i);
    let h = q[0];
    let ns = m.spec_neighbours(h.last().position, false);
    lemma_neighbours_in_bounds(m, h.last().position, false);
    lemma_burst_basic(m, kb, h, ns);
    let burst = burst_m(m, h, ns);
    if burst.0 is Some {
        assert(bfs_m(m, kb, q) == burst.0);
        lemma_burst_sol_len(m, h, ns);
        assert(h.len() <= q[e].len());
        assert(q[e].len() == i + 1);
    } else {
        lemma_bfs_step(m, kb, q);
        let q2 = q.drop_first() + burst.1;
        assert(queue_layered(q2)) by {
            assert forall|a: int, b: int|
                #![trigger q2[a], q2[b]]
                0 <= a <= b < q2.len() implies q2[a].len() <= q2[b].len() && q2[b].len()
                <= q2[a].len() + 1 by {
                if a < q.len() - 1 {
                    assert(q2[a] == q[a + 1]);
                } else {
                    assert(q2[a] == burst.1[a - (q.len() - 1)]);
                    assert(q2[a].len() == h.len() + 1);
                }
                if b < q.len() - 1 {
                    assert(q2[b] == q[b + 1]);
                } else {
                    assert(q2[b] == burst.1[b - (q.len() - 1)]);
                    assert(q2[b].len() == h.len() + 1);
                }
            }
        }
        if e > 0 {
            assert(q2[e - 1] == q[e]);
            lemma_bfs_complete(m, kb, q2, s0, w, i, e - 1);
        } else {
            lemma_walk_run_props(m, s0, w, i);
            let run = walk_run(s0, w, i);
            assert(h == run);
            let nxt = w[i + 1];
            assert(m.walls_edge(w[i], w[i + 1]));
            assert(h.last().position == w[i]);
            assert(ns.contains(nxt));
            let j = choose|j: int| 0 <= j < ns.len() && ns[j] == nxt;
            let s2 = choose|s2: StateM| transfer_m(run.last(), nxt) == Some(s2);
            lemma_transfer_props(run.last(), nxt, s2);
            assert(!(exists|t: int| 0 <= t < run.len() && sim(#[trigger] run[t], s2))) by {
                if exists|t: int| 0 <= t < run.len() && sim(#[trigger] run[t], s2) {
                    let t = choose|t: int| 0 <= t < run.len() && sim(#[trigger] run[t], s2);
                    assert(run[t].position == w[t]);
                    assert(s2.position == nxt);
                    assert(w[t] == w[i + 1]);
                    assert(false);
                }
            }
            if m.exit_at(nxt) {
                lemma_burst_finds_exit(m, run, ns, j, s2);
                assert(false);
            } else {
                assert(i + 1 < w.len() - 1);
                lemma_burst_keeps_continuation(m, run, ns, j, s2);
                let t2 = choose|t2: int|
                    0 <= t2 < burst.1.len() && burst.1[t2] == run.push(s2);
                assert(walk_run(s0, w, i + 1) == run.push(s2));
                assert(q2[q.len() - 1 + t2] == walk_run(s0, w, i + 1));
                lemma_bfs_complete(m, kb, q2, s0, w, i + 1, q.len() - 1 + t2);
            }
        }
    }
}

/// Cutting the stretch between two visits of the same cell shortens a
/// door-free walk and keeps its endpoints.
proof fn lemma_walk_cut(m: Maze, w: Seq<(usize, usize)>, x: int, y: int)
    requires
        door_free_walk(m, w),
        0 <= x < y < w.len(),
        w[x] == w[y],
    ensures
        ({
            let w3 = w.take(x) + w.skip(y);
            &&& door_free_walk(m, w3)
            &&& w3.len() < w.len()
            &&& w3[0] == w[0]
            &&& w3[w3.len() - 1] == w[w.len() - 1]
        }),
{
    let w3 = w.take(x) + w.skip(y);
    assert(w3.len() == x + w.len() - y);
    assert(w3[w3.len() - 1] == w[w.len() - 1]);
    if x == 0 {
        assert(w3[0] == w[y]);
        assert(w[y] == w[x]);
    } else {
        assert(w3[0] == w[0]);
    }
    assert forall|t: int| 0 <= t < w3.len() - 1 implies m.walls_edge(#[trigger] w3[t], w3[t + 1])
        && !m.doors_edge(w3[t], w3[t + 1]) by {
        if t < x - 1 {
            assert(w3[t] == w[t] && w3[t + 1] == w[t + 1]);
            assert(m.walls_edge(w[t], w[t + 1]) && !m.doors_edge(w[t], w[t + 1]));
        } else if t == x - 1 {
            assert(w3[t] == w[t] && w3[t + 1] == w[y]);
            assert(w[y] == w[x]);
            assert(m.walls_edge(w[t], w[t + 1]) && !m.doors_edge(w[t], w[t + 1]));
        } else {
            assert(w3[t] == w[y + t - x] && w3[t + 1] == w[y + t - x + 1]);
            assert(m.walls_edge(w[y + t - x], w[y + t - x + 1]) && !m.doors_edge(
                w[y + t - x],
                w[y + t - x + 1],
            ));
        }
    }
}

/// Any walk contains a duplicate-free walk with the same endpoints.
proof fn lemma_walk_simplify(m: Maze, w: Seq<(usize, usize)>)
    requires
        door_free_walk(m, w),
    ensures
        exists|w2: Seq<(usize, usize)>|
            #[trigger] door_free_walk(m, w2) && w2.no_duplicates() && w2[0] == w[0]
                && w2[w2.len() - 1] == w[w.len() - 1] && w2.len() <= w.len(),
    decreases w.len(),
{
    if w.no_duplicates() {
        assert(door_free_walk(m, w) && w.no_duplicates() && w[0] == w[0] && w[w.len() - 1]
            == w[w.len() - 1] && w.len() <= w.len());
    } else {
        let (a, b) = choose|a: int, b: int|
            0 <= a < w.len() && 0 <= b < w.len() && a != b && w[a] == w[b];
        let x = if a < b { a } else { b };
        let y = if a < b { b } else { a };
        lemma_walk_cut(m, w, x, y);
        let w3 = w.take(x) + w.skip(y);
        lemma_walk_simplify(m, w3);
        let w2 = choose|w2: Seq<(usize, usize)>|
            #[trigger] door_free_walk(m, w2) && w2.no_duplicates() && w2[0] == w3[0]
                && w2[w2.len() - 1] == w3[w3.len() - 1] && w2.len() <= w3.len();
        assert(door_free_walk(m, w2) && w2.no_duplicates() && w2[0] == w[0] && w2[w2.len() - 1]
            == w[w.len() - 1] && w2.len() <= w.len());
    }
}

/// Completeness over door-free routes: wherever some walk from the start
/// to an exit crosses no locked door, the search returns a path.  With
/// the engines pinned to `search_result`, both return one.
pub proof fn lemma_door_free_route_is_found(m: Maze, w: Seq<(usize, usize)>)
    requires
        m.wf(),
        door_free_walk(m, w),
        w[0] == m.start,
        m.exit_at(w[w.len() - 1]),
    ensures
        search_result(m, m.initial_m()) matches Some(p) && p.len() <= w.len(),
{
    if m.exit_at(m.start) {
    } else {
        lemma_walk_simplify(m, w);
        let w2 = choose|w2: Seq<(usize, usize)>|
            #[trigger] door_free_walk(m, w2) && w2.no_duplicates() && w2[0] == w[0]
                && w2[w2.len() - 1] == w[w.len() - 1] && w2.len() <= w.len();
        assert(w2.len() >= 2) by {
            if w2.len() == 1 {
                assert(w2[0] == m.start && m.exit_at(w2[0]));
            }
        }
        let s = m.initial_m();
        let sd = seeded(s);
        assert(sd.position == m.start);
        assert(sd.doors.subset_of(m.door_edges()));
        crate::maze::lemma_key_cells_finite(m);
        assert(sd.keys_left.finite());
        let kb = search_kb(sd);
        assert(hist_wf(m, kb, seq![sd]));
        assert(seq![seq![sd]][0] == walk_run(sd, w2, 0));
        assert(queue_layered(seq![seq![sd]]));
        lemma_bfs_complete(m, kb, seq![seq![sd]], sd, w2, 0, 0);
    }
}

} // verus!
