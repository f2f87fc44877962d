use vstd::prelude::*;

use crate::maze::{lemma_key_cells_finite, Maze};
use crate::search::{
    door_free_walk, lemma_door_free_route_is_found, lemma_search_result_sound, path_of, run_ok,
    search_result,
};
use crate::state::{transfer_m, StateM};

verus! {

/// Whatever a search from the maze's canonical starting state returns
/// begins at the declared start cell and ends on a member of the exits
/// set; the only alternative is the explicit "no path" answer.  Both
/// engines promise `search_result`, so this covers them both.
pub proof fn lemma_path_endpoints(m: Maze)
    requires
        m.wf(),
    ensures
        match search_result(m, m.initial_m()) {
            Some(p) => p.len() >= 1 && p[0] == m.start && m.exit_at(p[p.len() - 1]),
            None => true,
        },
{
    lemma_key_cells_finite(m);
    lemma_search_result_sound(m, m.initial_m());
}

/// The sequential and the fan-out engine agree: both are pinned to the
/// same deterministic `search_result`, so two searches from equal states
/// return identical answers — in particular, paths of equal length.
pub proof fn lemma_engines_agree(
    m: Maze,
    s: StateM,
    r1: Option<Seq<(usize, usize)>>,
    r2: Option<Seq<(usize, usize)>>,
)
    requires
        r1 == search_result(m, s),
        r2 == search_result(m, s),
    ensures
        r1 == r2,
        r1 matches Some(p1) ==> r2 matches Some(p2) && p1.len() == p2.len(),
{
}

/// Along a run that starts with no key in hand and no key on the ground,
/// every state still has no key, every key set stays empty, and the run's
/// private doors graph never loses an edge.
proof fn lemma_keyless_run_invariant(m: Maze, h: Seq<StateM>, t: int)
    requires
        run_ok(m, h),
        h.len() >= 1,
        h[0].keys == 0,
        h[0].keys_left == Set::<(usize, usize)>::empty(),
        0 <= t < h.len(),
    ensures
        h[t].keys == 0,
        h[t].keys_left == Set::<(usize, usize)>::empty(),
        h[t].doors == h[0].doors,
    decreases t,
{
    if t > 0 {
        lemma_keyless_run_invariant(m, h, t - 1);
        assert(transfer_m(h[t - 1], h[t].position) == Some(h[t]));
        assert(!h[t - 1].keys_left.contains(h[t].position));
    }
}

/// With a locked door and zero keys anywhere, no path through that door
/// is ever used: a path the search returns on a keyless maze crosses no
/// door-gated boundary at any step.
pub proof fn lemma_no_keys_path_avoids_doors(m: Maze, p: Seq<(usize, usize)>)
    requires
        m.wf(),
        m.key_cells() == Set::<(usize, usize)>::empty(),
        search_result(m, m.initial_m()) == Some(p),
    ensures
        forall|t: int| 0 <= t < p.len() - 1 ==> !m.doors_edge(#[trigger] p[t], p[t + 1]),
{
    lemma_key_cells_finite(m);
    lemma_search_result_sound(m, m.initial_m());
    let s0 = m.initial_m();
    let hh = choose|hh: Seq<StateM>|
        run_ok(m, hh) && hh.len() >= 1 && hh[0] == s0 && path_of(hh) == p && m.exit_at(
            hh.last().position,
        );
    assert forall|t: int| 0 <= t < p.len() - 1 implies !m.doors_edge(#[trigger] p[t], p[t + 1]) by {
        lemma_keyless_run_invariant(m, hh, t);
        assert(transfer_m(hh[t], hh[t + 1].position) == Some(hh[t + 1]));
        assert(hh[t].doors == m.door_edges());
        if m.doors_edge(p[t], p[t + 1]) {
            assert(hh[t].doors.contains((hh[t].position, hh[t + 1].position)));
            assert(false);
        }
    }
}

/// On a keyless maze where no door-free walk from the start reaches an
/// exit, the engine reports no path: a locked door on every route keeps
/// every exit out of reach.
pub proof fn lemma_keyless_dead_end_has_no_path(m: Maze)
    requires
        m.wf(),
        m.key_cells() == Set::<(usize, usize)>::empty(),
        forall|p: Seq<(usize, usize)>|
            #[trigger] door_free_walk(m, p) && p[0] == m.start ==> !m.exit_at(p[p.len() - 1]),
    ensures
        search_result(m, m.initial_m()) == None::<Seq<(usize, usize)>>,
{
    match search_result(m, m.initial_m()) {
        Some(p) => {
            lemma_key_cells_finite(m);
            lemma_search_result_sound(m, m.initial_m());
            lemma_no_keys_path_avoids_doors(m, p);
            let s0 = m.initial_m();
            let hh = choose|hh: Seq<StateM>|
                run_ok(m, hh) && hh.len() >= 1 && hh[0] == s0 && path_of(hh) == p && m.exit_at(
                    hh.last().position,
                );
            assert(door_free_walk(m, p)) by {
                assert forall|t: int| 0 <= t < p.len() - 1 implies m.walls_edge(
                    #[trigger] p[t],
                    p[t + 1],
                ) && !m.doors_edge(p[t], p[t + 1]) by {
                    assert(m.walls_edge(hh[t].position, hh[t + 1].position));
                }
            }
            assert(p[0] == m.start);
            assert(m.exit_at(p[p.len() - 1]));
            assert(false);
        },
        None => {},
    }
}

/// The full agreement law for door-free routes: where at least one walk
/// from the start to an exit crosses no locked door, both engines return
/// a path, the two paths are identical — in particular of equal length —
/// and neither is longer than that walk.
pub proof fn lemma_door_free_route_engines_agree(
    m: Maze,
    w: Seq<(usize, usize)>,
    r1: Option<Seq<(usize, usize)>>,
    r2: Option<Seq<(usize, usize)>>,
)
    requires
        m.wf(),
        door_free_walk(m, w),
        w[0] == m.start,
        m.exit_at(w[w.len() - 1]),
        r1 == search_result(m, m.initial_m()),
        r2 == search_result(m, m.initial_m()),
    ensures
        r1 is Some,
        r2 is Some,
        r1 == r2,
        r1 matches Some(p1) ==> r2 matches Some(p2) && p1.len() == p2.len() && p1.len()
            <= w.len(),
{
    lemma_door_free_route_is_found(m, w);
}

} // verus!
