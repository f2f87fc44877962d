use vstd::prelude::*;

verus! {

/// Flat-index arithmetic for a row-major grid: each in-bounds cell gets a
/// distinct index below `rows * cols`.
pub proof fn lemma_flat_range(i: int, j: int, rows: int, cols: int)
    requires
        0 <= i < rows,
        0 <= j < cols,
    ensures
        0 <= i * cols + j < rows * cols,
        i * cols <= (rows - 1) * cols,
{
    assert(i * cols + j < rows * cols) by (nonlinear_arith)
        requires
            0 <= i < rows,
            0 <= j < cols,
    ;
    assert(i * cols <= (rows - 1) * cols) by (nonlinear_arith)
        requires
            0 <= i < rows,
            0 <= cols,
    ;
}

/// Two in-bounds cells with the same flat index are the same cell.
pub proof fn lemma_flat_injective(i1: int, j1: int, i2: int, j2: int, cols: int)
    requires
        0 <= i1,
        0 <= i2,
        0 <= j1 < cols,
        0 <= j2 < cols,
        i1 * cols + j1 == i2 * cols + j2,
    ensures
        i1 == i2,
        j1 == j2,
{
    assert(i1 == i2 && j1 == j2) by (nonlinear_arith)
        requires
            0 <= i1,
            0 <= i2,
            0 <= j1 < cols,
            0 <= j2 < cols,
            i1 * cols + j1 == i2 * cols + j2,
    ;
}

/// A directed adjacency relation over the cells of a `rows` by `cols` grid,
/// stored row-major: `adj[r * cols + c]` lists the neighbours of cell (r, c).
pub struct Graph {
    pub rows: usize,
    pub cols: usize,
    pub adj: Vec<Vec<(usize, usize)>>,
}

impl Graph {
    pub open spec fn in_bounds(self, p: (usize, usize)) -> bool {
        p.0 < self.rows && p.1 < self.cols
    }

    /// The row-major flat index of a cell.
    pub open spec fn flat(self, p: (usize, usize)) -> int {
        p.0 * self.cols + p.1
    }

    pub open spec fn wf(self) -> bool {
        &&& self.rows * self.cols <= usize::MAX
        &&& self.adj@.len() == self.rows * self.cols
        &&& forall|k: int|
            0 <= k < self.adj@.len() ==> (#[trigger] self.adj@[k])@.no_duplicates()
    }

    /// The directed edge relation the adjacency lists spell out.
    pub open spec fn edge(self, a: (usize, usize), b: (usize, usize)) -> bool {
        self.in_bounds(a) && self.adj@[self.flat(a)]@.contains(b)
    }

    /// The edge relation as a set of ordered pairs.
    pub open spec fn edges(self) -> Set<((usize, usize), (usize, usize))> {
        Set::new(|e: ((usize, usize), (usize, usize))| self.edge(e.0, e.1))
    }

    /// Maps an in-bounds cell to its adjacency-list slot.
    fn flat_index(&self, p: (usize, usize)) -> (k: usize)
        requires
            self.wf(),
            self.in_bounds(p),
        ensures
            k == self.flat(p),
            k < self.adj@.len(),
    {
        proof {
            lemma_flat_range(p.0 as int, p.1 as int, self.rows as int, self.cols as int);
        }
        p.0 * self.cols + p.1
    }

    /// A copy of the neighbour list of an in-bounds cell.
    #[verifier::loop_isolation(false)]
    pub fn neighbours_of(&self, p: (usize, usize)) -> (r: Vec<(usize, usize)>)
        requires
            self.wf(),
            self.in_bounds(p),
        ensures
            r@ == self.adj@[self.flat(p)]@,
    {
        let k = self.flat_index(p);
        let list = &self.adj[k];
        let mut r: Vec<(usize, usize)> = Vec::new();
        let mut i: usize = 0;
        while i < list.len()
            invariant
                i <= list@.len(),
                r@ == list@.subrange(0, i as int),
            decreases list@.len() - i,
        {
            r.push(list[i]);
            i += 1;
            proof {
                assert(r@ =~= list@.subrange(0, i as int));
            }
        }
        proof {
            assert(r@ =~= list@);
        }
        r
    }

    /// Whether the directed edge from `a` to `b` is present.
    #[verifier::loop_isolation(false)]
    pub fn has_edge(&self, a: (usize, usize), b: (usize, usize)) -> (r: bool)
        requires
            self.wf(),
            self.in_bounds(a),
        ensures
            r == self.edge(a, b),
    {
        let k = self.flat_index(a);
        let list = &self.adj[k];
        let mut i: usize = 0;
        while i < list.len()
            invariant
                i <= list@.len(),
                forall|t: int| 0 <= t < i ==> list@[t] != b,
            decreases list@.len() - i,
        {
            if list[i].0 == b.0 && list[i].1 == b.1 {
                proof {
                    assert(list@[i as int] == b);
                    assert(list@.contains(b));
                }
                return true;
            }
            i += 1;
        }
        false
    }

    /// Removes the directed edge from `a` to `b`; the reverse edge, if any,
    /// stays.
    #[verifier::loop_isolation(false)]
    pub fn remove_edge(&mut self, a: (usize, usize), b: (usize, usize))
        requires
            old(self).wf(),
            old(self).edge(a, b),
        ensures
            final(self).wf(),
            final(self).rows == old(self).rows,
            final(self).cols == old(self).cols,
            forall|x: (usize, usize), y: (usize, usize)|
                #[trigger] final(self).edge(x, y) <==> (old(self).edge(x, y) && !(x == a && y == b)),
            final(self).edges() == old(self).edges().remove((a, b)),
    {
        let k = self.flat_index(a);
        let mut list = self.adj.remove(k);
        let ghost old_list = list@;
        let i = find_position(&list, b);
        list.remove(i);
        proof {
            assert(list@ == old_list.remove(i as int));
            lemma_remove_keeps_no_duplicates(old_list, i as int);
        }
        self.adj.insert(k, list);
        proof {
            assert(self.adj@ =~= old(self).adj@.update(k as int, self.adj@[k as int]));
            assert forall|x: (usize, usize), y: (usize, usize)|
                #[trigger] self.edge(x, y) <==> (old(self).edge(x, y) && !(x == a && y == b)) by {
                if self.in_bounds(x) {
                    lemma_flat_range(x.0 as int, x.1 as int, self.rows as int, self.cols as int);
                    let f = self.flat(x);
                    if f == k {
                        lemma_flat_injective(
                            x.0 as int, x.1 as int, a.0 as int, a.1 as int, self.cols as int);
                        assert(x.0 == a.0 && x.1 == a.1);
                        assert(x == a);
                        lemma_remove_element(old_list, i as int, y);
                    } else {
                        assert(self.adj@[f] == old(self).adj@[f]);
                        assert(x != a);
                    }
                }
            }
            assert(self.edges() =~= old(self).edges().remove((a, b)));
        }
    }

    /// A value-for-value copy.
    #[verifier::loop_isolation(false)]
    pub fn duplicate(&self) -> (r: Graph)
        ensures
            r.rows == self.rows,
            r.cols == self.cols,
            r.adj@.len() == self.adj@.len(),
            forall|k: int|
                0 <= k < self.adj@.len() ==> (#[trigger] r.adj@[k])@ == (self.adj@[k])@,
            self.wf() ==> r.wf() && r.edges() == self.edges(),
    {
        let mut adj: Vec<Vec<(usize, usize)>> = Vec::new();
        let mut k: usize = 0;
        while k < self.adj.len()
            invariant
                k <= self.adj@.len(),
                adj@.len() == k,
                forall|t: int| 0 <= t < k ==> (#[trigger] adj@[t])@ == (self.adj@[t])@,
            decreases self.adj@.len() - k,
        {
            let list = &self.adj[k];
            let mut row: Vec<(usize, usize)> = Vec::new();
            let mut i: usize = 0;
            while i < list.len()
                invariant
                    i <= list@.len(),
                    row@ == list@.subrange(0, i as int),
                decreases list@.len() - i,
            {
                row.push(list[i]);
                i += 1;
                proof {
                    assert(row@ =~= list@.subrange(0, i as int));
                }
            }
            proof {
                assert(row@ =~= list@);
            }
            adj.push(row);
            k += 1;
        }
        let r = Graph { rows: self.rows, cols: self.cols, adj };
        proof {
            if self.wf() {
                assert forall|x: (usize, usize), y: (usize, usize)|
                    r.edge(x, y) == self.edge(x, y) by {
                    if self.in_bounds(x) {
                        lemma_flat_range(
                            x.0 as int, x.1 as int, self.rows as int, self.cols as int);
                    }
                }
                assert(r.edges() =~= self.edges());
            }
        }
        r
    }
}

/// A value-for-value copy of a list of positions.
#[verifier::loop_isolation(false)]
pub fn copy_positions(list: &Vec<(usize, usize)>) -> (r: Vec<(usize, usize)>)
    ensures
        r@ == list@,
{
    let mut r: Vec<(usize, usize)> = Vec::new();
    let mut i: usize = 0;
    while i < list.len()
        invariant
            i <= list@.len(),
            r@ == list@.subrange(0, i as int),
        decreases list@.len() - i,
    {
        r.push(list[i]);
        i += 1;
        proof {
            assert(r@ =~= list@.subrange(0, i as int));
        }
    }
    proof {
        assert(r@ =~= list@);
    }
    r
}

/// The index of the first occurrence of `b` in `list`.
#[verifier::loop_isolation(false)]
fn find_position(list: &Vec<(usize, usize)>, b: (usize, usize)) -> (j: usize)
    requires
        list@.contains(b),
    ensures
        j < list@.len(),
        list@[j as int] == b,
{
    let mut i: usize = 0;
    while i < list.len()
        invariant
            i <= list@.len(),
            forall|t: int| 0 <= t < i ==> list@[t] != b,
            list@.contains(b),
        decreases list@.len() - i,
    {
        if list[i].0 == b.0 && list[i].1 == b.1 {
            proof {
                assert(list@[i as int] == b);
            }
            return i;
        }
        i += 1;
    }
    proof {
        let w = choose|w: int| 0 <= w < list@.len() && list@[w] == b;
        assert(false);
    }
    0
}

/// Removing one position from a duplicate-free sequence keeps it
/// duplicate-free, and drops exactly that element.
pub proof fn lemma_remove_keeps_no_duplicates(s: Seq<(usize, usize)>, i: int)
    requires
        s.no_duplicates(),
        0 <= i < s.len(),
    ensures
        s.remove(i).no_duplicates(),
{
    let t = s.remove(i);
    assert forall|p: int, q: int| 0 <= p < q < t.len() implies t[p] != t[q] by {
        if q < i {
            assert(t[p] == s[p] && t[q] == s[q]);
        } else if p < i {
            assert(t[p] == s[p] && t[q] == s[q + 1]);
        } else {
            assert(t[p] == s[p + 1] && t[q] == s[q + 1]);
        }
    }
}

/// After removing index `i` from a duplicate-free sequence, membership of a
/// value `y` survives exactly when `y` is not the removed element.
pub proof fn lemma_remove_element(s: Seq<(usize, usize)>, i: int, y: (usize, usize))
    requires
        s.no_duplicates(),
        0 <= i < s.len(),
    ensures
        s.remove(i).contains(y) <==> (s.contains(y) && y != s[i]),
{
    let t = s.remove(i);
    if t.contains(y) {
        let w = choose|w: int| 0 <= w < t.len() && t[w] == y;
        if w < i {
            assert(s[w] == y);
        } else {
            assert(s[w + 1] == y);
        }
    }
    if s.contains(y) && y != s[i] {
        let w = choose|w: int| 0 <= w < s.len() && s[w] == y;
        if w < i {
            assert(t[w] == y);
        } else {
            assert(w > i);
            assert(t[w - 1] == y);
        }
    }
}

} // verus!
