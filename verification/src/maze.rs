use vstd::prelude::*;

use crate::field::Field;
use crate::graph::{lemma_flat_range, Graph};
use crate::state::{PathCache, State, StateM};

verus! {

/// The grid height every encoded maze declares.
pub const DEFAULT_ROWS: usize = 6;

/// The grid width every encoded maze declares.
pub const DEFAULT_COLUMNS: usize = 9;

/// Bit pattern marking an exit cell in the encoded info bits.
pub const DEFAULT_END: u8 = 0b11;

/// Bit pattern marking a key cell in the encoded info bits.
pub const DEFAULT_KEY: u8 = 0b1100;

/// Why decoding a byte stream into a maze failed.
#[derive(Clone, Copy, PartialEq, Eq, Structural, Debug)]
pub enum MazeError {
    /// Fewer bytes than the declared dimensions require.
    IncompleteData,
    /// The decoded grid holds no exit cell.
    NoExit,
}

/// The maze: the row-major grid of cells, its dimensions, the start cell,
/// the exit cells, and the lazily materialised canonical search state.
pub struct Maze {
    pub fields: Vec<Vec<Field>>,
    pub dimensions: (usize, usize),
    pub start: (usize, usize),
    pub exits: Vec<(usize, usize)>,
    pub state: Option<State>,
}

impl Default for Maze {
    /// An empty grid declaring the default dimensions; decoding fills it.
    fn default() -> (r: Maze)
        ensures
            r.fields@.len() == 0,
            r.dimensions == (DEFAULT_ROWS, DEFAULT_COLUMNS),
            r.start == (0usize, 0usize),
            r.exits@.len() == 0,
            r.state is None,
    {
        Maze {
            fields: Vec::new(),
            dimensions: (DEFAULT_ROWS, DEFAULT_COLUMNS),
            start: (0, 0),
            exits: Vec::new(),
            state: None,
        }
    }
}

impl Maze {
    pub open spec fn in_bounds(self, p: (usize, usize)) -> bool {
        p.0 < self.dimensions.0 && p.1 < self.dimensions.1
    }

    pub open spec fn field_at(self, p: (usize, usize)) -> Field {
        self.fields@[p.0 as int]@[p.1 as int]
    }

    /// Whether an in-bounds cell is an exit.
    pub open spec fn exit_at(self, p: (usize, usize)) -> bool {
        self.in_bounds(p) && self.field_at(p).exit
    }

    /// Whether an in-bounds cell still holds a collectible key.
    pub open spec fn key_at(self, p: (usize, usize)) -> bool {
        self.in_bounds(p) && self.field_at(p).key
    }

    /// The set of cells holding a key.
    pub open spec fn key_cells(self) -> Set<(usize, usize)> {
        Set::new(|p: (usize, usize)| self.key_at(p))
    }

    /// The cell one step in direction `d` (0 = west, 1 = east, 2 = north,
    /// 3 = south), or nothing where that step leaves the grid.
    pub open spec fn dir_target(self, p: (usize, usize), d: int) -> Option<(usize, usize)> {
        if d == 0 {
            if p.1 >= 1 {
                Some((p.0, (p.1 - 1) as usize))
            } else {
                None
            }
        } else if d == 1 {
            if p.1 + 1 < self.dimensions.1 {
                Some((p.0, (p.1 + 1) as usize))
            } else {
                None
            }
        } else if d == 2 {
            if p.0 >= 1 {
                Some(((p.0 - 1) as usize, p.1))
            } else {
                None
            }
        } else {
            if p.0 + 1 < self.dimensions.0 {
                Some(((p.0 + 1) as usize, p.1))
            } else {
                None
            }
        }
    }

    /// The boundary flag that decides direction `d` for one of the two
    /// derived graphs: a cleared wall bit for the walls graph, a set door
    /// bit for the doors graph.
    pub open spec fn passage_open(self, p: (usize, usize), d: int, through_doors: bool) -> bool {
        if through_doors {
            self.field_at(p).doors@[d]
        } else {
            !self.field_at(p).walls@[d]
        }
    }

    /// The neighbour contributed by direction `d`: one cell where the step
    /// stays on the grid and the boundary flag allows it, none otherwise.
    pub open spec fn dir_seg(self, p: (usize, usize), d: int, through_doors: bool) -> Seq<
        (usize, usize),
    > {
        match self.dir_target(p, d) {
            Some(q) => if self.passage_open(p, d, through_doors) {
                seq![q]
            } else {
                seq![]
            },
            None => seq![],
        }
    }

    /// The neighbours of `p` in direction order west, east, north, south.
    /// With `through_doors` false these are the freely passable moves (the
    /// walls graph); with it true, the moves gated by a locked door (the
    /// doors graph).  Off-grid directions are skipped.
    pub open spec fn spec_neighbours(self, p: (usize, usize), through_doors: bool) -> Seq<
        (usize, usize),
    > {
        self.dir_seg(p, 0, through_doors) + self.dir_seg(p, 1, through_doors) + self.dir_seg(
            p,
            2,
            through_doors,
        ) + self.dir_seg(p, 3, through_doors)
    }

    /// The walls graph as a relation: a free move from `a` to `b`.
    pub open spec fn walls_edge(self, a: (usize, usize), b: (usize, usize)) -> bool {
        self.in_bounds(a) && self.spec_neighbours(a, false).contains(b)
    }

    /// The doors graph as a relation: a move from `a` to `b` gated by a
    /// locked door.
    pub open spec fn doors_edge(self, a: (usize, usize), b: (usize, usize)) -> bool {
        self.in_bounds(a) && self.spec_neighbours(a, true).contains(b)
    }

    /// All door-gated moves, as a set of ordered pairs.
    pub open spec fn door_edges(self) -> Set<((usize, usize), (usize, usize))> {
        Set::new(|e: ((usize, usize), (usize, usize))| self.doors_edge(e.0, e.1))
    }

    /// The canonical search state a freshly decoded maze starts from.
    pub open spec fn initial_m(self) -> StateM {
        StateM {
            position: self.start,
            keys: 0,
            doors: self.door_edges(),
            keys_left: self.key_cells(),
        }
    }

    pub open spec fn wf(self) -> bool {
        &&& self.dimensions.0 * self.dimensions.1 <= usize::MAX
        &&& self.fields@.len() == self.dimensions.0
        &&& forall|i: int|
            0 <= i < self.fields@.len() ==> (#[trigger] self.fields@[i])@.len()
                == self.dimensions.1
        &&& forall|i: int, j: int|
            0 <= i < self.dimensions.0 && 0 <= j < self.dimensions.1 ==> (
            #[trigger] self.fields@[i]@[j]).position == (i as usize, j as usize)
        &&& self.in_bounds(self.start)
        &&& self.exits@.no_duplicates()
        &&& forall|t: int|
            0 <= t < self.exits@.len() ==> self.exit_at(#[trigger] self.exits@[t])
        &&& forall|p: (usize, usize)| self.exit_at(p) ==> #[trigger] self.exits@.contains(p)
        &&& self.exits@.len() >= 1
    }

    /// The neighbour list `spec_neighbours` describes, computed.
    #[verifier::loop_isolation(false)]
    fn neighbours_exec(&self, p: (usize, usize), through_doors: bool) -> (r: Vec<(usize, usize)>)
        requires
            self.wf(),
            self.in_bounds(p),
        ensures
            r@ == self.spec_neighbours(p, through_doors),
    {
        let f = &self.fields[p.0][p.1];
        let mut r: Vec<(usize, usize)> = Vec::new();
        let open0 = if through_doors {
            f.doors[0]
        } else {
            !f.walls[0]
        };
        if open0 && p.1 >= 1 {
            r.push((p.0, p.1 - 1));
        }
        proof {
            assert(r@ =~= self.dir_seg(p, 0, through_doors));
        }
        let open1 = if through_doors {
            f.doors[1]
        } else {
            !f.walls[1]
        };
        if open1 && p.1 + 1 < self.dimensions.1 {
            r.push((p.0, p.1 + 1));
        }
        proof {
            assert(r@ =~= self.dir_seg(p, 0, through_doors) + self.dir_seg(p, 1, through_doors));
        }
        let open2 = if through_doors {
            f.doors[2]
        } else {
            !f.walls[2]
        };
        if open2 && p.0 >= 1 {
            r.push((p.0 - 1, p.1));
        }
        proof {
            assert(r@ =~= self.dir_seg(p, 0, through_doors) + self.dir_seg(p, 1, through_doors)
                + self.dir_seg(p, 2, through_doors));
        }
        let open3 = if through_doors {
            f.doors[3]
        } else {
            !f.walls[3]
        };
        if open3 && p.0 + 1 < self.dimensions.0 {
            r.push((p.0 + 1, p.1));
        }
        proof {
            assert(r@ =~= self.spec_neighbours(p, through_doors));
        }
        r
    }

    /// The immediate neighbours reachable from `position` through free
    /// passages, in direction order west, east, north, south.
    pub fn get_direct_neighbours(&self, position: &(usize, usize)) -> (r: Vec<(usize, usize)>)
        requires
            self.wf(),
            self.in_bounds(*position),
        ensures
            r@ == self.spec_neighbours(*position, false),
    {
        self.neighbours_exec(*position, false)
    }

    /// The immediate neighbours reachable from `position` through a door,
    /// locked or not, in direction order west, east, north, south.
    pub fn get_door_neighbours(&self, position: &(usize, usize)) -> (r: Vec<(usize, usize)>)
        requires
            self.wf(),
            self.in_bounds(*position),
        ensures
            r@ == self.spec_neighbours(*position, true),
    {
        self.neighbours_exec(*position, true)
    }

    /// Decodes a byte stream into a maze: a 6 by 9 grid, three bytes for
    /// every two cells.  A stream shorter than the grid requires is
    /// rejected as incomplete; a decoded grid without an exit cell is
    /// rejected too.  On success the canonical search state is already
    /// materialised and the path cache is empty.
    #[verifier::loop_isolation(false)]
    #[verifier::spinoff_prover]
    #[verifier::rlimit(100)]
    pub fn parse_from_vector(data: Vec<u8>) -> (r: Result<Maze, MazeError>)
        ensures
            match r {
                Ok(m) => {
                    &&& 2 * data@.len() >= 3 * (DEFAULT_ROWS as int) * (DEFAULT_COLUMNS as int)
                    &&& m.wf()
                    &&& m.dimensions == (DEFAULT_ROWS, DEFAULT_COLUMNS)
                    &&& m.start == (0usize, 0usize)
                    &&& forall|i: int, j: int|
                        0 <= i < DEFAULT_ROWS && 0 <= j < DEFAULT_COLUMNS ==> #[trigger] m.fields@[i]@[j]
                            == decoded_field(data@, i, j)
                    &&& m.state matches Some(st) && st.wf() && st.m() == m.initial_m()
                        && st.shortest_path == PathCache::Unknown && st.doors_graph.rows
                        == m.dimensions.0 && st.doors_graph.cols == m.dimensions.1
                        && st.doors_graph.in_bounds(st.position)
                },
                Err(MazeError::IncompleteData) => 2 * data@.len() < 3 * (DEFAULT_ROWS as int) * (
                DEFAULT_COLUMNS as int),
                Err(MazeError::NoExit) => {
                    &&& 2 * data@.len() >= 3 * (DEFAULT_ROWS as int) * (DEFAULT_COLUMNS as int)
                    &&& forall|i: int, j: int|
                        0 <= i < DEFAULT_ROWS && 0 <= j < DEFAULT_COLUMNS ==> !(
                        #[trigger] decoded_field(data@, i, j)).exit
                },
            },
    {
        if data.len() < (DEFAULT_ROWS * DEFAULT_COLUMNS * 3 + 1) / 2 {
            return Err(MazeError::IncompleteData);
        }
        let cols = DEFAULT_COLUMNS;
        let mut fields: Vec<Vec<Field>> = Vec::new();
        let mut exits: Vec<(usize, usize)> = Vec::new();
        let mut new_row: bool = true;
        let mut index: usize = 0;
        let mut i: usize = 0;
        while i < DEFAULT_ROWS
            invariant
                i <= DEFAULT_ROWS,
                data@.len() >= 81,
                fields@.len() == i,
                forall|t: int| 0 <= t < i ==> (#[trigger] fields@[t])@.len() == DEFAULT_COLUMNS,
                forall|t: int, u: int|
                    0 <= t < i && 0 <= u < DEFAULT_COLUMNS ==> #[trigger] fields@[t]@[u]
                        == decoded_field(data@, t, u),
                index == cell_base(i as int * DEFAULT_COLUMNS as int),
                new_row == ((i as int * DEFAULT_COLUMNS as int) % 2 == 0),
                exits@.no_duplicates(),
                forall|t: int|
                    0 <= t < exits@.len() ==> (#[trigger] exits@[t]).0 < i && exits@[t].1
                        < DEFAULT_COLUMNS && decoded_field(
                        data@,
                        exits@[t].0 as int,
                        exits@[t].1 as int,
                    ).exit,
                forall|p: (usize, usize)|
                    p.0 < i && p.1 < DEFAULT_COLUMNS && decoded_field(
                        data@,
                        p.0 as int,
                        p.1 as int,
                    ).exit ==> #[trigger] exits@.contains(p),
            decreases DEFAULT_ROWS - i,
        {
            let mut row: Vec<Field> = Vec::new();
            let mut j: usize = 0;
            while j < cols
                invariant
                    i < DEFAULT_ROWS,
                    j <= cols,
                    cols == DEFAULT_COLUMNS,
                    data@.len() >= 81,
                    row@.len() == j,
                    forall|u: int|
                        0 <= u < j ==> #[trigger] row@[u] == decoded_field(data@, i as int, u),
                    index == cell_base(i as int * DEFAULT_COLUMNS as int + j as int),
                    new_row == ((i as int * DEFAULT_COLUMNS as int + j as int) % 2 == 0),
                    exits@.no_duplicates(),
                    forall|t: int|
                        0 <= t < exits@.len() ==> ((#[trigger] exits@[t]).0 < i || (exits@[t].0
                            == i && exits@[t].1 < j)) && exits@[t].1 < DEFAULT_COLUMNS
                            && decoded_field(data@, exits@[t].0 as int, exits@[t].1 as int).exit,
                    forall|p: (usize, usize)|
                        (p.0 < i || (p.0 == i && p.1 < j)) && p.1 < DEFAULT_COLUMNS
                            && decoded_field(data@, p.0 as int, p.1 as int).exit
                            ==> #[trigger] exits@.contains(p),
                decreases cols - j,
            {
                let ghost k: int = i as int * DEFAULT_COLUMNS as int + j as int;
                proof {
                    lemma_cell_base(k);
                    assert(k < 54);
                    assert(2 * cell_base(k) <= 3 * 53);
                    assert(index + 1 < data@.len());
                }
                let walls_bits: u8;
                let doors_bits: u8;
                let info_bits: u8;
                if new_row {
                    walls_bits = data[index] >> 4;
                    doors_bits = data[index] & 0x0f;
                    info_bits = data[index + 1] >> 4;
                    index = index + 1;
                    new_row = false;
                } else {
                    walls_bits = data[index] & 0x0f;
                    doors_bits = data[index + 1] >> 4;
                    info_bits = data[index + 1];
                    index = index + 2;
                    new_row = true;
                }
                let field = Field {
                    position: (i, j),
                    exit: info_bits & DEFAULT_END == DEFAULT_END,
                    key: info_bits & DEFAULT_KEY == DEFAULT_KEY,
                    walls: [
                        walls_bits & 8 != 8,
                        walls_bits & 4 != 4,
                        walls_bits & 2 != 2,
                        walls_bits & 1 != 1,
                    ],
                    doors: [
                        doors_bits & 8 == 8,
                        doors_bits & 4 == 4,
                        doors_bits & 2 == 2,
                        doors_bits & 1 == 1,
                    ],
                };
                proof {
                    assert(field == decoded_field(data@, i as int, j as int));
                }
                let ghost exits_before = exits@;
                if field.exit {
                    exits.push((i, j));
                }
                row.push(field);
                j += 1;
                proof {
                    assert(cell_base(k + 1) == cell_base(k) + (if k % 2 == 0 {
                        1int
                    } else {
                        2int
                    }));
                    lemma_cell_base(k + 1);
                    assert((k + 1) % 2 == (if k % 2 == 0 {
                        1int
                    } else {
                        0int
                    })) by (nonlinear_arith)
                        requires
                            k >= 0,
                    ;
                    assert forall|p: (usize, usize)|
                        (p.0 < i || (p.0 == i && p.1 < j)) && p.1 < DEFAULT_COLUMNS
                            && decoded_field(data@, p.0 as int, p.1 as int).exit implies #[trigger]
                    exits@.contains(p) by {
                        if p.0 == i && p.1 == j - 1 {
                            assert(p == (i, (j - 1) as usize));
                            assert(exits@[exits@.len() - 1] == p);
                        } else {
                            assert(exits_before.contains(p));
                            let w = choose|w: int|
                                0 <= w < exits_before.len() && exits_before[w] == p;
                            assert(exits@[w] == p);
                        }
                    }
                }
            }
            fields.push(row);
            i += 1;
        }
        if exits.len() < 1 {
            proof {
                assert forall|i2: int, j2: int|
                    0 <= i2 < DEFAULT_ROWS && 0 <= j2 < DEFAULT_COLUMNS implies !(
                #[trigger] decoded_field(data@, i2, j2)).exit by {
                    if decoded_field(data@, i2, j2).exit {
                        assert(exits@.contains((i2 as usize, j2 as usize)));
                    }
                }
            }
            return Err(MazeError::NoExit);
        }
        let mut maze = Maze {
            fields,
            dimensions: (DEFAULT_ROWS, DEFAULT_COLUMNS),
            start: (0, 0),
            exits,
            state: None,
        };
        proof {
            assert forall|p: (usize, usize)| maze.exit_at(p) implies #[trigger] maze.exits@.contains(
                p,
            ) by {
                assert(decoded_field(data@, p.0 as int, p.1 as int).exit);
            }
            assert(maze.wf());
        }
        let st = State::create_from_maze(&maze);
        let ghost m0 = maze;
        maze.state = Some(st);
        proof {
            assert(maze.door_edges() =~= m0.door_edges());
            assert(maze.key_cells() =~= m0.key_cells());
            assert(maze.initial_m() == m0.initial_m());
        }
        Ok(maze)
    }

    /// Derives one of the two adjacency graphs from the grid: for every
    /// cell and every direction whose boundary flag allows it, an edge to
    /// the corresponding neighbour, skipping directions that leave the grid.
    #[verifier::loop_isolation(false)]
    fn build_graph(&self, through_doors: bool) -> (g: Graph)
        requires
            self.wf(),
        ensures
            g.wf(),
            g.rows == self.dimensions.0,
            g.cols == self.dimensions.1,
            forall|p: (usize, usize)|
                g.in_bounds(p) ==> (#[trigger] g.adj@[g.flat(p)])@ == self.spec_neighbours(
                    p,
                    through_doors,
                ),
    {
        let rows = self.dimensions.0;
        let cols = self.dimensions.1;
        let mut adj: Vec<Vec<(usize, usize)>> = Vec::new();
        let mut i: usize = 0;
        while i < rows
            invariant
                i <= rows,
                adj@.len() == i * cols,
                forall|t: int| 0 <= t < adj@.len() ==> (#[trigger] adj@[t])@.no_duplicates(),
                forall|r: int, c: int|
                    0 <= r < i && 0 <= c < cols ==> #[trigger] slot(adj@, cols as int, r, c)
                        == self.spec_neighbours((r as usize, c as usize), through_doors),
            decreases rows - i,
        {
            let mut j: usize = 0;
            while j < cols
                invariant
                    i < rows,
                    j <= cols,
                    adj@.len() == i * cols + j,
                    forall|t: int| 0 <= t < adj@.len() ==> (#[trigger] adj@[t])@.no_duplicates(),
                    forall|r: int, c: int|
                        (0 <= r < i && 0 <= c < cols) || (r == i && 0 <= c < j)
                            ==> #[trigger] slot(adj@, cols as int, r, c) == self.spec_neighbours(
                            (r as usize, c as usize),
                            through_doors,
                        ),
                decreases cols - j,
            {
                let list = self.neighbours_exec((i, j), through_doors);
                proof {
                    lemma_neighbours_no_dup(*self, (i, j), through_doors);
                }
                let ghost before = adj@;
                adj.push(list);
                j += 1;
                proof {
                    assert forall|r: int, c: int|
                        (0 <= r < i && 0 <= c < cols) || (r == i && 0 <= c < j) implies #[trigger]
                    slot(adj@, cols as int, r, c) == self.spec_neighbours(
                        (r as usize, c as usize),
                        through_doors,
                    ) by {
                        if r < i {
                            lemma_flat_range(r, c, i as int, cols as int);
                            assert(slot(adj@, cols as int, r, c) == slot(
                                before,
                                cols as int,
                                r,
                                c,
                            ));
                        } else if c < j - 1 {
                            assert(slot(adj@, cols as int, r, c) == slot(
                                before,
                                cols as int,
                                r,
                                c,
                            ));
                        } else {
                            assert(r * cols + c == before.len());
                            assert(adj@[r * cols + c]@ == list@);
                        }
                    }
                }
            }
            proof {
                assert(i * cols + cols == (i + 1) * cols) by (nonlinear_arith);
            }
            i += 1;
        }
        let g = Graph { rows, cols, adj };
        proof {
            assert forall|p: (usize, usize)|
                g.in_bounds(p) implies (#[trigger] g.adj@[g.flat(p)])@ == self.spec_neighbours(
                p,
                through_doors,
            ) by {
                lemma_flat_range(p.0 as int, p.1 as int, rows as int, cols as int);
                assert(slot(g.adj@, cols as int, p.0 as int, p.1 as int) == self.spec_neighbours(
                    p,
                    through_doors,
                ));
            }
        }
        g
    }

    /// The walls graph: every freely passable move of the grid.
    pub(crate) fn get_walls_graph(&self) -> (g: Graph)
        requires
            self.wf(),
        ensures
            g.wf(),
            g.rows == self.dimensions.0,
            g.cols == self.dimensions.1,
            forall|p: (usize, usize)|
                g.in_bounds(p) ==> (#[trigger] g.adj@[g.flat(p)])@ == self.spec_neighbours(
                    p,
                    false,
                ),
            forall|a: (usize, usize), b: (usize, usize)|
                #[trigger] g.edge(a, b) <==> self.walls_edge(a, b),
    {
        let g = self.build_graph(false);
        proof {
            assert forall|a: (usize, usize), b: (usize, usize)|
                #[trigger] g.edge(a, b) <==> self.walls_edge(a, b) by {
                if g.in_bounds(a) {
                    lemma_flat_range(
                        a.0 as int,
                        a.1 as int,
                        self.dimensions.0 as int,
                        self.dimensions.1 as int,
                    );
                }
            }
        }
        g
    }

    /// The doors graph: every move of the grid gated by a locked door.
    pub(crate) fn get_doors_graph(&self) -> (g: Graph)
        requires
            self.wf(),
        ensures
            g.wf(),
            g.rows == self.dimensions.0,
            g.cols == self.dimensions.1,
            g.edges() == self.door_edges(),
            forall|a: (usize, usize), b: (usize, usize)|
                #[trigger] g.edge(a, b) <==> self.doors_edge(a, b),
    {
        let g = self.build_graph(true);
        proof {
            assert forall|a: (usize, usize), b: (usize, usize)|
                #[trigger] g.edge(a, b) <==> self.doors_edge(a, b) by {
                if g.in_bounds(a) {
                    lemma_flat_range(
                        a.0 as int,
                        a.1 as int,
                        self.dimensions.0 as int,
                        self.dimensions.1 as int,
                    );
                }
            }
            assert(g.edges() =~= self.door_edges());
        }
        g
    }

    /// All cells still holding a key, in row-major order.
    #[verifier::loop_isolation(false)]
    pub fn get_keys_set(&self) -> (r: Vec<(usize, usize)>)
        requires
            self.wf(),
        ensures
            r@.no_duplicates(),
            r@.to_set() == self.key_cells(),
            r@.len() <= self.dimensions.0 * self.dimensions.1,
    {
        let rows = self.dimensions.0;
        let cols = self.dimensions.1;
        let mut r: Vec<(usize, usize)> = Vec::new();
        let mut i: usize = 0;
        while i < rows
            invariant
                i <= rows,
                r@.no_duplicates(),
                r@.len() <= i * cols,
                forall|t: int|
                    0 <= t < r@.len() ==> (#[trigger] r@[t]).0 < i && self.key_at(r@[t]),
                forall|p: (usize, usize)| self.key_at(p) && p.0 < i ==> #[trigger] r@.contains(p),
            decreases rows - i,
        {
            let mut j: usize = 0;
            while j < cols
                invariant
                    i < rows,
                    j <= cols,
                    r@.no_duplicates(),
                    r@.len() <= i * cols + j,
                    forall|t: int|
                        0 <= t < r@.len() ==> ((#[trigger] r@[t]).0 < i || (r@[t].0 == i
                            && r@[t].1 < j)) && self.key_at(r@[t]),
                    forall|p: (usize, usize)|
                        self.key_at(p) && (p.0 < i || (p.0 == i && p.1 < j))
                            ==> #[trigger] r@.contains(p),
                decreases cols - j,
            {
                let ghost before = r@;
                if self.fields[i][j].key {
                    r.push((i, j));
                }
                j += 1;
                proof {
                    assert forall|p: (usize, usize)|
                        self.key_at(p) && (p.0 < i || (p.0 == i && p.1 < j))
                            implies #[trigger] r@.contains(p) by {
                        if p.0 == i && p.1 == j - 1 {
                            assert(p == (i, (j - 1) as usize));
                            assert(r@[r@.len() - 1] == p);
                        } else {
                            assert(before.contains(p));
                            let w = choose|w: int| 0 <= w < before.len() && before[w] == p;
                            assert(r@[w] == p);
                        }
                    }
                }
            }
            proof {
                assert(i * cols + cols == (i + 1) * cols) by (nonlinear_arith);
            }
            i += 1;
        }
        proof {
            assert(r@.to_set() =~= self.key_cells());
        }
        r
    }
}

/// Where cell `k` (row-major) starts in the byte stream: cells alternately
/// occupy one and two bytes, three bytes for every pair of cells.
pub open spec fn cell_base(k: int) -> int
    decreases k,
{
    if k <= 0 {
        0
    } else {
        cell_base(k - 1) + (if (k - 1) % 2 == 0 {
            1int
        } else {
            2int
        })
    }
}

/// The closed form of `cell_base`.
pub proof fn lemma_cell_base(k: int)
    requires
        k >= 0,
    ensures
        2 * cell_base(k) == 3 * k - (k % 2),
        k % 2 == 0 || k % 2 == 1,
    decreases k,
{
    assert(k % 2 == 0 || k % 2 == 1) by (nonlinear_arith)
        requires
            k >= 0,
    ;
    if k > 0 {
        lemma_cell_base(k - 1);
        assert((k - 1) % 2 + 1 == 2 - (k % 2)) by (nonlinear_arith)
            requires
                k >= 1,
        ;
    }
}

/// The cell the byte stream describes at row-major position (`i`, `j`): the
/// high or low nibbles at its base offset give the wall and door bits, and
/// the following info bits give the key and exit flags.  A cleared wall bit
/// means a wall; a set door bit means a door.
pub open spec fn decoded_field(data: Seq<u8>, i: int, j: int) -> Field {
    let k = i * (DEFAULT_COLUMNS as int) + j;
    let b = cell_base(k);
    let walls_bits = if k % 2 == 0 {
        data[b] >> 4u8
    } else {
        data[b] & 0x0fu8
    };
    let doors_bits = if k % 2 == 0 {
        data[b] & 0x0fu8
    } else {
        data[b + 1] >> 4u8
    };
    let info_bits = if k % 2 == 0 {
        data[b + 1] >> 4u8
    } else {
        data[b + 1]
    };
    Field {
        position: (i as usize, j as usize),
        exit: info_bits & DEFAULT_END == DEFAULT_END,
        key: info_bits & DEFAULT_KEY == DEFAULT_KEY,
        walls: [
            walls_bits & 8 != 8,
            walls_bits & 4 != 4,
            walls_bits & 2 != 2,
            walls_bits & 1 != 1,
        ],
        doors: [
            doors_bits & 8 == 8,
            doors_bits & 4 == 4,
            doors_bits & 2 == 2,
            doors_bits & 1 == 1,
        ],
    }
}

/// Which adjacency list stands at the row-major slot of cell (`r`, `c`).
pub open spec fn slot(adj: Seq<Vec<(usize, usize)>>, cols: int, r: int, c: int) -> Seq<
    (usize, usize),
> {
    (adj[r * cols + c])@
}

/// A cell's neighbour list never repeats a cell: the four candidate
/// targets lie in four different places.
proof fn lemma_neighbours_no_dup(m: Maze, p: (usize, usize), through_doors: bool)
    ensures
        m.spec_neighbours(p, through_doors).no_duplicates(),
{
    let s = m.spec_neighbours(p, through_doors);
    let s0 = m.dir_seg(p, 0, through_doors);
    let s1 = m.dir_seg(p, 1, through_doors);
    let s2 = m.dir_seg(p, 2, through_doors);
    let s3 = m.dir_seg(p, 3, through_doors);
    assert forall|x: int, y: int| 0 <= x < y < s.len() implies s[x] != s[y] by {
        assert(s == s0 + s1 + s2 + s3);
    }
}

/// The cells of a grid form a finite set, and so does any selection of
/// them, such as the cells holding a key.
pub proof fn lemma_key_cells_finite(m: Maze)
    ensures
        m.key_cells().finite(),
{
    let rows = m.dimensions.0 as int;
    let cols = m.dimensions.1 as int;
    if cols == 0 {
        assert(m.key_cells() =~= Set::<(usize, usize)>::empty());
    } else {
        let range = vstd::set_lib::set_int_range(0, rows * cols);
        let to_cell = |k: int| (((k / cols) as usize, (k % cols) as usize));
        let grid = range.map(to_cell);
        vstd::set_lib::lemma_int_range(0, rows * cols);
        range.lemma_map_finite(to_cell);
        assert(m.key_cells().subset_of(grid)) by {
            assert forall|p: (usize, usize)| m.key_cells().contains(p) implies grid.contains(
                p,
            ) by {
                let k = p.0 as int * cols + p.1 as int;
                crate::graph::lemma_flat_range(p.0 as int, p.1 as int, rows, cols);
                vstd::arithmetic::div_mod::lemma_fundamental_div_mod_converse(
                    k,
                    cols,
                    p.0 as int,
                    p.1 as int,
                );
                assert(range.contains(k));
                assert(to_cell(k) == p);
            }
        }
        vstd::set_lib::lemma_len_subset(m.key_cells(), grid);
    }
}

} // verus!
