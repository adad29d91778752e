//! A directed graph on the vertices `0..side`, kept as a square matrix of
//! flags in row-major order.

use vstd::prelude::*;

verus! {

/// The positions below `n` at which `flags` is set, in rising order.
pub open spec fn marked(flags: Seq<bool>, n: nat) -> Seq<usize>
    decreases n,
{
    if n == 0 {
        Seq::empty()
    } else if flags[n - 1] {
        marked(flags, (n - 1) as nat).push((n - 1) as usize)
    } else {
        marked(flags, (n - 1) as nat)
    }
}

/// The cell of a pair of vertices lies inside a square matrix kept row by row.
pub proof fn lemma_cell_in_bounds(i: int, j: int, side: int)
    requires
        0 <= i < side,
        0 <= j < side,
    ensures
        0 <= i * side + j < side * side,
        0 <= i * side <= i * side + j,
{
    assert(i * side + side <= side * side) by (nonlinear_arith)
        requires
            0 <= i < side,
    ;
    assert(0 <= i * side) by (nonlinear_arith)
        requires
            0 <= i,
            0 <= side,
    ;
}

/// Two pairs of vertices with the same cell are the same pair.
pub proof fn lemma_cell_unique(i: int, j: int, a: int, b: int, side: int)
    requires
        0 <= i < side,
        0 <= j < side,
        0 <= a < side,
        0 <= b < side,
        i * side + j == a * side + b,
    ensures
        i == a,
        j == b,
{
    if i < a {
        assert(i * side + side <= a * side) by (nonlinear_arith)
            requires
                i < a,
                0 <= side,
        ;
    }
    if a < i {
        assert(a * side + side <= i * side) by (nonlinear_arith)
            requires
                a < i,
                0 <= side,
        ;
    }
}

/// A directed graph on the vertices `0..side`.
pub struct AdjacencyMatrix {
    storage: Vec<bool>,
    side: usize,
}

impl AdjacencyMatrix {
    /// The number of vertices.
    pub closed spec fn side(&self) -> nat {
        self.side as nat
    }

    /// The flags of the matrix, row after row.
    pub closed spec fn cells(&self) -> Seq<bool> {
        self.storage@
    }

    /// Validity: the matrix has a flag for each pair of vertices.
    pub open spec fn wf(&self) -> bool {
        self.cells().len() == self.side() * self.side()
    }

    /// Whether the graph has an edge from `i` to `j`.
    pub open spec fn edge(&self, i: int, j: int) -> bool {
        self.cells()[i * self.side() + j]
    }

    /// The flags of the edges that leave `i`, by target.
    pub open spec fn row(&self, i: int) -> Seq<bool> {
        Seq::new(self.side(), |j: int| self.edge(i, j))
    }

    /// The flags of the edges that enter `j`, by source.
    pub open spec fn column(&self, j: int) -> Seq<bool> {
        Seq::new(self.side(), |i: int| self.edge(i, j))
    }

    /// A graph on `side` vertices without edges.
    pub fn initialize(side: usize) -> (graph: Self)
        requires
            side * side <= usize::MAX,
        ensures
            graph.wf(),
            graph.side() == side,
            forall|i: int, j: int| 0 <= i < side && 0 <= j < side ==> !graph.edge(i, j),
    {
        let graph = Self { storage: vec![false; side * side], side };
        proof {
            assert forall|i: int, j: int| 0 <= i < side && 0 <= j < side implies !graph.edge(i, j) by {
                lemma_cell_in_bounds(i, j, side as int);
            }
        }
        graph
    }

    /// Tells whether the graph has an edge from `i` to `j`.
    pub fn has_edge(&self, i: usize, j: usize) -> (b: bool)
        requires
            self.wf(),
            i < self.side(),
            j < self.side(),
        ensures
            b == self.edge(i as int, j as int),
    {
        self.get(i, j)
    }

    /// Adds the edge from `i` to `j`; every other pair stays as it is.
    pub fn add_edge(&mut self, i: usize, j: usize)
        requires
            old(self).wf(),
            i < old(self).side(),
            j < old(self).side(),
        ensures
            final(self).wf(),
            final(self).side() == old(self).side(),
            final(self).cells() == old(self).cells().update(i * old(self).side() + j, true),
            forall|a: int, b: int|
                0 <= a < old(self).side() && 0 <= b < old(self).side() ==> final(self).edge(a, b) == (old(self).edge(
                    a,
                    b,
                ) || (a == i && b == j)),
    {
        *self.get_mut(i, j) = true;
        proof {
            lemma_cell_in_bounds(i as int, j as int, self.side as int);
            assert forall|a: int, b: int| 0 <= a < old(self).side() && 0 <= b < old(self).side() implies self.edge(
                a,
                b,
            ) == (old(self).edge(a, b) || (a == i && b == j)) by {
                lemma_cell_in_bounds(a, b, self.side as int);
                if a * self.side + b == i * self.side + j {
                    lemma_cell_unique(a, b, i as int, j as int, self.side as int);
                }
            }
        }
    }

    /// Removes the edge from `i` to `j`; every other pair stays as it is.
    pub fn remove_edge(&mut self, i: usize, j: usize)
        requires
            old(self).wf(),
            i < old(self).side(),
            j < old(self).side(),
        ensures
            final(self).wf(),
            final(self).side() == old(self).side(),
            final(self).cells() == old(self).cells().update(i * old(self).side() + j, false),
            forall|a: int, b: int|
                0 <= a < old(self).side() && 0 <= b < old(self).side() ==> final(self).edge(a, b) == (old(self).edge(
                    a,
                    b,
                ) && !(a == i && b == j)),
    {
        *self.get_mut(i, j) = false;
        proof {
            lemma_cell_in_bounds(i as int, j as int, self.side as int);
            assert forall|a: int, b: int| 0 <= a < old(self).side() && 0 <= b < old(self).side() implies self.edge(
                a,
                b,
            ) == (old(self).edge(a, b) && !(a == i && b == j)) by {
                lemma_cell_in_bounds(a, b, self.side as int);
                if a * self.side + b == i * self.side + j {
                    lemma_cell_unique(a, b, i as int, j as int, self.side as int);
                }
            }
        }
    }

    /// The targets of the edges that leave `i`, in rising order.
    pub fn out_edges(&self, i: usize) -> (targets: Vec<usize>)
        requires
            self.wf(),
            i < self.side(),
        ensures
            targets@ == marked(self.row(i as int), self.side()),
    {
        let mut targets: Vec<usize> = Vec::new();
        let mut j: usize = 0;
        while j < self.side
            invariant
                self.wf(),
                i < self.side(),
                j <= self.side(),
                targets@ == marked(self.row(i as int), j as nat),
            decreases self.side() - j,
        {
            if self.has_edge(i, j) {
                targets.push(j);
            }
            j = j + 1;
        }
        targets
    }

    /// The sources of the edges that enter `j`, in rising order.
    pub fn in_edges(&self, j: usize) -> (sources: Vec<usize>)
        requires
            self.wf(),
            j < self.side(),
        ensures
            sources@ == marked(self.column(j as int), self.side()),
    {
        let mut sources: Vec<usize> = Vec::new();
        let mut i: usize = 0;
        while i < self.side
            invariant
                self.wf(),
                j < self.side(),
                i <= self.side(),
                sources@ == marked(self.column(j as int), i as nat),
            decreases self.side() - i,
        {
            if self.has_edge(i, j) {
                sources.push(i);
            }
            i = i + 1;
        }
        sources
    }

    fn get(&self, i: usize, j: usize) -> (flag: bool)
        requires
            self.wf(),
            i < self.side(),
            j < self.side(),
        ensures
            flag == self.edge(i as int, j as int),
    {
        self.storage[self.index(i, j)]
    }

    fn get_mut(&mut self, i: usize, j: usize) -> (flag: &mut bool)
        requires
            old(self).wf(),
            i < old(self).side(),
            j < old(self).side(),
        ensures
            *flag == old(self).edge(i as int, j as int),
            final(self).side() == old(self).side(),
            final(self).cells() == old(self).cells().update(i * old(self).side() + j, *final(flag)),
    {
        let storage_idx = self.index(i, j);
        &mut self.storage[storage_idx]
    }

    fn index(&self, i: usize, j: usize) -> (cell: usize)
        requires
            self.wf(),
            i < self.side(),
            j < self.side(),
        ensures
            cell == i * self.side() + j,
            cell < self.cells().len(),
    {
        proof {
            lemma_cell_in_bounds(i as int, j as int, self.side as int);
            assert(self.storage.len() == self.cells().len());
        }
        i * self.side + j
    }
}

} // verus!
