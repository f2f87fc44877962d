use vstd::prelude::*;

use crate::graph::{copy_positions, Graph};
use crate::graph::{lemma_remove_element, lemma_remove_keeps_no_duplicates};
use crate::maze::Maze;

verus! {

/// The outcome of trying to open the boundary toward a target cell.
#[derive(Debug)]
pub enum UnlockDoor {
    NoKey,
    NoDoor,
    Unlocked,
}

/// The cached outcome of the lazy shortest-path computation.  `Unknown`
/// means the search has not run yet; `NoPath` records that it ran and found
/// no route, which keeps the two cases apart.
pub enum PathCache {
    Unknown,
    NoPath,
    Found(Vec<(usize, usize)>),
}

/// The cache as a value: `None` while the search has not run, otherwise the
/// search's own result.
pub open spec fn cache_view(c: PathCache) -> Option<Option<Seq<(usize, usize)>>> {
    match c {
        PathCache::Unknown => None,
        PathCache::NoPath => Some(None),
        PathCache::Found(p) => Some(Some(p@)),
    }
}

/// What the search semantics reads out of a `State`: the position, the key
/// count, the door edges still locked, and the key cells still uncollected.
pub ghost struct StateM {
    pub position: (usize, usize),
    pub keys: nat,
    pub doors: Set<((usize, usize), (usize, usize))>,
    pub keys_left: Set<(usize, usize)>,
}

/// A key lying at `p` is picked up on arrival; otherwise nothing changes.
pub open spec fn collect_m(s: StateM, p: (usize, usize)) -> StateM {
    if s.keys_left.contains(p) {
        StateM {
            position: s.position,
            keys: s.keys + 1,
            doors: s.doors,
            keys_left: s.keys_left.remove(p),
        }
    } else {
        s
    }
}

/// One step of the search semantics: moving from `s.position` to `p`.
/// A locked door on the way costs one key and disappears once crossed (only
/// in this direction); with no key in hand the step is impossible.  Arriving
/// picks up a key lying at `p`.
pub open spec fn transfer_m(s: StateM, p: (usize, usize)) -> Option<StateM> {
    if s.doors.contains((s.position, p)) {
        if s.keys == 0 {
            None
        } else {
            Some(
                collect_m(
                    StateM {
                        position: p,
                        keys: (s.keys - 1) as nat,
                        doors: s.doors.remove((s.position, p)),
                        keys_left: s.keys_left,
                    },
                    p,
                ),
            )
        }
    } else {
        Some(
            collect_m(
                StateM { position: p, keys: s.keys, doors: s.doors, keys_left: s.keys_left },
                p,
            ),
        )
    }
}

/// A search state: where the actor stands, how many keys it holds, its own
/// copy of the still-locked door edges, the key cells not yet collected, and
/// the cached shortest-path result.
pub struct State {
    pub position: (usize, usize),
    pub keys: usize,
    pub doors_graph: Graph,
    pub keys_set: Vec<(usize, usize)>,
    pub shortest_path: PathCache,
}

impl Default for State {
    /// The empty state: at the origin with no key, no door and no cache.
    fn default() -> (r: State)
        ensures
            r.position == (0usize, 0usize),
            r.keys == 0,
            r.doors_graph.rows == 0,
            r.doors_graph.cols == 0,
            r.doors_graph.adj@.len() == 0,
            r.keys_set@.len() == 0,
            r.shortest_path == PathCache::Unknown,
            r.wf(),
    {
        State {
            position: (0, 0),
            keys: 0,
            doors_graph: Graph { rows: 0, cols: 0, adj: Vec::new() },
            keys_set: Vec::new(),
            shortest_path: PathCache::Unknown,
        }
    }
}

impl PartialEq for State {
    /// States are compared as stops of the search: same cell, same
    /// number of keys in hand, whatever doors have been opened or keys
    /// remain.
    fn eq(&self, other: &State) -> (r: bool) {
        self.position.0 == other.position.0 && self.position.1 == other.position.1 && self.keys
            == other.keys
    }
}

impl vstd::std_specs::cmp::PartialEqSpecImpl for State {
    open spec fn obeys_eq_spec() -> bool {
        true
    }

    open spec fn eq_spec(&self, other: &State) -> bool {
        self.position == other.position && self.keys == other.keys
    }
}

impl State {
    /// The mathematical content of this state.
    pub open spec fn m(self) -> StateM {
        StateM {
            position: self.position,
            keys: self.keys as nat,
            doors: self.doors_graph.edges(),
            keys_left: self.keys_set@.to_set(),
        }
    }

    pub open spec fn wf(self) -> bool {
        &&& self.doors_graph.wf()
        &&& self.keys_set@.no_duplicates()
        &&& self.keys + self.keys_set@.len() <= usize::MAX
    }

    /// A copy that shares nothing with the original.
    pub fn duplicate(&self) -> (r: State)
        ensures
            r.position == self.position,
            r.keys == self.keys,
            r.keys_set@ == self.keys_set@,
            r.doors_graph.rows == self.doors_graph.rows,
            r.doors_graph.cols == self.doors_graph.cols,
            r.doors_graph.edges() == self.doors_graph.edges() || !self.doors_graph.wf(),
            cache_view(r.shortest_path) == cache_view(self.shortest_path),
            self.wf() ==> r.wf() && r.m() == self.m(),
    {
        let cache = match &self.shortest_path {
            PathCache::Unknown => PathCache::Unknown,
            PathCache::NoPath => PathCache::NoPath,
            PathCache::Found(p) => PathCache::Found(copy_positions(p)),
        };
        let r = State {
            position: self.position,
            keys: self.keys,
            doors_graph: self.doors_graph.duplicate(),
            keys_set: copy_positions(&self.keys_set),
            shortest_path: cache,
        };
        r
    }

    /// The canonical state a search starts from: standing at the maze's
    /// start with no key in hand, every door of the maze still locked and
    /// every key still in place.
    pub fn create_from_maze(maze: &Maze) -> (r: State)
        requires
            maze.wf(),
        ensures
            r.wf(),
            r.m() == maze.initial_m(),
            r.position == maze.start,
            r.keys == 0,
            r.shortest_path == PathCache::Unknown,
            r.doors_graph.rows == maze.dimensions.0,
            r.doors_graph.cols == maze.dimensions.1,
            r.doors_graph.in_bounds(r.position),
    {
        let r = State {
            doors_graph: maze.get_doors_graph(),
            position: maze.start,
            keys_set: maze.get_keys_set(),
            keys: 0,
            shortest_path: PathCache::Unknown,
        };
        r
    }

    /// If a locked door bars the way from the current position to `position`,
    /// spend a key to open it (the edge is gone afterwards), report `NoKey`
    /// if no key is held, and report `NoDoor` if no door is in the way.
    pub fn unlock_door(&mut self, position: &(usize, usize)) -> (r: UnlockDoor)
        requires
            old(self).wf(),
            old(self).doors_graph.in_bounds(old(self).position),
        ensures
            final(self).wf(),
            final(self).position == old(self).position,
            final(self).keys_set == old(self).keys_set,
            final(self).shortest_path == old(self).shortest_path,
            final(self).doors_graph.rows == old(self).doors_graph.rows,
            final(self).doors_graph.cols == old(self).doors_graph.cols,
            match r {
                UnlockDoor::NoDoor => {
                    &&& !old(self).m().doors.contains((old(self).position, *position))
                    &&& *final(self) == *old(self)
                },
                UnlockDoor::NoKey => {
                    &&& old(self).m().doors.contains((old(self).position, *position))
                    &&& old(self).keys == 0
                    &&& *final(self) == *old(self)
                },
                UnlockDoor::Unlocked => {
                    &&& old(self).m().doors.contains((old(self).position, *position))
                    &&& old(self).keys > 0
                    &&& final(self).keys == old(self).keys - 1
                    &&& final(self).m().doors == old(self).m().doors.remove(
                        (old(self).position, *position),
                    )
                    &&& final(self).m().keys_left == old(self).m().keys_left
                },
            },
    {
        if self.doors_graph.has_edge(self.position, *position) {
            if self.keys > 0 {
                self.keys = self.keys - 1;
                let from = self.position;
                self.doors_graph.remove_edge(from, *position);
                UnlockDoor::Unlocked
            } else {
                UnlockDoor::NoKey
            }
        } else {
            UnlockDoor::NoDoor
        }
    }

    /// Picks up the key lying at `position`, if one is still there: the cell
    /// leaves the remaining-keys set and the held-key count grows by one.
    #[verifier::loop_isolation(false)]
    pub fn collect_key(&mut self, position: &(usize, usize))
        requires
            old(self).wf(),
        ensures
            final(self).wf(),
            final(self).position == old(self).position,
            final(self).doors_graph == old(self).doors_graph,
            final(self).shortest_path == old(self).shortest_path,
            if old(self).m().keys_left.contains(*position) {
                &&& final(self).keys == old(self).keys + 1
                &&& final(self).m().keys_left == old(self).m().keys_left.remove(*position)
            } else {
                *final(self) == *old(self)
            },
            final(self).keys + final(self).keys_set@.len() <= old(self).keys
                + old(self).keys_set@.len(),
    {
        let p = *position;
        let mut i: usize = 0;
        while i < self.keys_set.len()
            invariant
                *self == *old(self),
                i <= self.keys_set@.len(),
                forall|t: int| 0 <= t < i ==> self.keys_set@[t] != p,
            decreases self.keys_set@.len() - i,
        {
            if self.keys_set[i].0 == p.0 && self.keys_set[i].1 == p.1 {
                proof {
                    assert(self.keys_set@[i as int] == p);
                    assert(self.keys_set@.contains(p));
                    lemma_remove_keeps_no_duplicates(self.keys_set@, i as int);
                    lemma_remove_element(self.keys_set@, i as int, p);
                }
                let ghost before = self.keys_set@;
                self.keys_set.remove(i);
                self.keys = self.keys + 1;
                proof {
                    assert forall|y: (usize, usize)|
                        self.keys_set@.contains(y) == (before.contains(y) && y != p) by {
                        lemma_remove_element(before, i as int, y);
                    }
                    assert(self.keys_set@.to_set() =~= before.to_set().remove(p));
                }
                return ;
            }
            i += 1;
        }
        proof {
            if self.keys_set@.contains(p) {
                let w = choose|w: int| 0 <= w < self.keys_set@.len() && self.keys_set@[w] == p;
                assert(false);
            }
        }
    }

    /// Replaces the position without touching keys or doors; the caller has
    /// already validated the move.
    pub fn move_to(&mut self, new_position: &(usize, usize))
        ensures
            final(self).position == *new_position,
            final(self).keys == old(self).keys,
            final(self).doors_graph == old(self).doors_graph,
            final(self).keys_set == old(self).keys_set,
            final(self).shortest_path == old(self).shortest_path,
            old(self).wf() ==> final(self).wf(),
    {
        self.position = *new_position;
    }

    /// The transition the search engine takes: a fresh state standing at
    /// `new_position`, or nothing when a locked door bars the way and no key
    /// is held.  The input state is left untouched.
    pub fn transfer_state(&self, new_position: &(usize, usize)) -> (r: Option<State>)
        requires
            self.wf(),
            self.doors_graph.in_bounds(self.position),
        ensures
            match r {
                Some(s2) => {
                    &&& transfer_m(self.m(), *new_position) == Some(s2.m())
                    &&& s2.wf()
                    &&& s2.position == *new_position
                    &&& s2.doors_graph.rows == self.doors_graph.rows
                    &&& s2.doors_graph.cols == self.doors_graph.cols
                    &&& s2.keys + s2.keys_set@.len() <= self.keys + self.keys_set@.len()
                    &&& cache_view(s2.shortest_path) == cache_view(self.shortest_path)
                },
                None => {
                    &&& transfer_m(self.m(), *new_position) == None::<StateM>
                    &&& self.m().doors.contains((self.position, *new_position))
                    &&& self.keys == 0
                },
            },
    {
        let mut ret = self.duplicate();
        match ret.unlock_door(new_position) {
            UnlockDoor::NoKey => None,
            _ => {
                ret.position = *new_position;
                ret.collect_key(new_position);
                Some(ret)
            },
        }
    }
}

} // verus!
