//! Boards: rectangular grids of cells, each either free or covered.

use vstd::prelude::*;
use vstd::std_specs::cmp::PartialEqSpecImpl;

verus! {

/// What a board is, mathematically: its dimensions and, cell by cell in
/// row-major order, whether the cell is covered.
pub struct BoardState {
    pub width: nat,
    pub height: nat,
    pub marked: Seq<bool>,
}

/// Number of `true` entries of a sequence of flags.
pub open spec fn count_true(q: Seq<bool>) -> nat
    decreases q.len(),
{
    if q.len() == 0 {
        0
    } else {
        count_true(q.drop_last()) + if q.last() { 1nat } else { 0nat }
    }
}

impl BoardState {
    /// The flags cover the grid exactly.
    pub open spec fn wf(self) -> bool {
        self.marked.len() == self.width * self.height
    }

    /// Number of cells of the grid.
    pub open spec fn cells(self) -> nat {
        self.marked.len()
    }

    /// Every cell is covered. A board without cells is complete.
    pub open spec fn is_complete(self) -> bool {
        forall|i: int| 0 <= i < self.marked.len() ==> self.marked[i]
    }

    /// Cell `i` is free and every cell before it is covered.
    pub open spec fn is_first_unmarked(self, i: int) -> bool {
        &&& 0 <= i < self.marked.len()
        &&& !self.marked[i]
        &&& forall|j: int| 0 <= j < i ==> self.marked[j]
    }

    /// The first free cell in row-major order; meaningful on boards that are
    /// not complete.
    pub open spec fn first_unmarked(self) -> int {
        choose|i: int| self.is_first_unmarked(i)
    }

    /// Number of covered cells.
    pub open spec fn marked_count(self) -> nat {
        count_true(self.marked)
    }

    /// Number of free cells.
    pub open spec fn unmarked_count(self) -> nat {
        (self.marked.len() - count_true(self.marked)) as nat
    }

    /// The same board with cell `i` covered.
    pub open spec fn mark(self, i: int) -> BoardState {
        BoardState { width: self.width, height: self.height, marked: self.marked.update(i, true) }
    }

    /// Both boards have the same dimensions and `other` covers every cell
    /// that `self` covers.
    pub open spec fn covered_by(self, other: BoardState) -> bool {
        &&& self.width == other.width
        &&& self.height == other.height
        &&& self.marked.len() == other.marked.len()
        &&& forall|i: int| 0 <= i < self.marked.len() && self.marked[i] ==> other.marked[i]
    }
}

/// No more flags are set than there are flags.
pub proof fn lemma_count_true_bound(q: Seq<bool>)
    ensures
        count_true(q) <= q.len(),
    decreases q.len(),
{
    if q.len() > 0 {
        lemma_count_true_bound(q.drop_last());
    }
}

/// All flags are set exactly when the count equals the length.
pub proof fn lemma_count_true_full(q: Seq<bool>)
    ensures
        count_true(q) == q.len() <==> (forall|i: int| 0 <= i < q.len() ==> q[i]),
    decreases q.len(),
{
    if q.len() > 0 {
        let p = q.drop_last();
        lemma_count_true_full(p);
        lemma_count_true_bound(p);
        if count_true(q) == q.len() {
            assert(q.last());
            assert forall|i: int| 0 <= i < q.len() implies q[i] by {
                if i < p.len() {
                    assert(p[i]);
                }
            }
        }
        if forall|i: int| 0 <= i < q.len() ==> q[i] {
            assert forall|i: int| 0 <= i < p.len() implies p[i] by {
                assert(q[i]);
            }
        }
    }
}

/// Where one sequence of flags is pointwise below another, it has no more
/// flags set; with a position set only in the second, it has fewer.
pub proof fn lemma_count_true_monotone(a: Seq<bool>, b: Seq<bool>)
    requires
        a.len() == b.len(),
        forall|i: int| 0 <= i < a.len() && a[i] ==> b[i],
    ensures
        count_true(a) <= count_true(b),
        (exists|i: int| 0 <= i < a.len() && !a[i] && b[i]) ==> count_true(a) < count_true(b),
    decreases a.len(),
{
    if a.len() > 0 {
        let a0 = a.drop_last();
        let b0 = b.drop_last();
        assert forall|i: int| 0 <= i < a0.len() && a0[i] implies b0[i] by {
            assert(a[i] ==> b[i]);
        }
        lemma_count_true_monotone(a0, b0);
        if exists|i: int| 0 <= i < a.len() && !a[i] && b[i] {
            let i = choose|i: int| 0 <= i < a.len() && !a[i] && b[i];
            if i < a0.len() {
                assert(!a0[i] && b0[i]);
            }
        }
    }
}

/// On a board that is not complete, exactly one cell is the first free one.
pub proof fn lemma_first_unmarked(s: BoardState)
    requires
        !s.is_complete(),
    ensures
        s.is_first_unmarked(s.first_unmarked()),
        forall|i: int| s.is_first_unmarked(i) ==> i == s.first_unmarked(),
{
    let k = choose|k: int| 0 <= k < s.marked.len() && !s.marked[k];
    let f = lemma_first_false(s.marked, k + 1);
    assert(s.is_first_unmarked(f));
    let w = s.first_unmarked();
    assert forall|i: int| s.is_first_unmarked(i) implies i == w by {
        if i < w {
            assert(s.marked[i]);
        }
        if w < i {
            assert(s.marked[w]);
        }
    }
}

proof fn lemma_first_false(q: Seq<bool>, n: int) -> (i: int)
    requires
        0 < n <= q.len(),
        !q[n - 1],
    ensures
        0 <= i < n,
        !q[i],
        forall|j: int| 0 <= j < i ==> q[j],
    decreases n,
{
    if exists|k: int| 0 <= k < n - 1 && !q[k] {
        let k = choose|k: int| 0 <= k < n - 1 && !q[k];
        lemma_first_false(q, k + 1)
    } else {
        n - 1
    }
}

/// A rectangular board. Cells are numbered in row-major order: the cell in
/// row `r` and column `c` has index `r * width + c`.
#[derive(Debug, Hash)]
pub struct Board {
    width: usize,
    height: usize,
    cells: Vec<bool>,
}

impl View for Board {
    type V = BoardState;

    closed spec fn view(&self) -> BoardState {
        BoardState {
            width: self.width as nat,
            height: self.height as nat,
            marked: self.cells@,
        }
    }
}

impl Board {
    #[verifier::type_invariant]
    spec fn inv(self) -> bool {
        self.cells@.len() == self.width * self.height
    }

    /// A board of the given size with every cell free.
    pub fn new(width: usize, height: usize) -> (r: Board)
        requires
            width * height <= usize::MAX,
        ensures
            r@.width == width,
            r@.height == height,
            r@.wf(),
            forall|i: int| 0 <= i < r@.marked.len() ==> !r@.marked[i],
    {
        let n: usize = width * height;
        let mut cells: Vec<bool> = Vec::new();
        let mut i: usize = 0;
        while i < n
            invariant
                i <= n,
                cells@.len() == i,
                forall|j: int| 0 <= j < i ==> !cells@[j],
            decreases n - i,
        {
            cells.push(false);
            i = i + 1;
        }
        Board { width, height, cells }
    }

    /// Number of columns.
    pub fn width(&self) -> (r: usize)
        ensures
            r == self@.width,
    {
        self.width
    }

    /// Number of rows.
    pub fn height(&self) -> (r: usize)
        ensures
            r == self@.height,
    {
        self.height
    }

    /// Number of cells.
    pub fn cell_count(&self) -> (r: usize)
        ensures
            r == self@.marked.len(),
            self@.wf(),
            self@.width <= usize::MAX,
            self@.height <= usize::MAX,
    {
        proof {
            use_type_invariant(self);
        }
        self.cells.len()
    }

    /// Whether cell `index` is covered.
    pub fn is_marked(&self, index: usize) -> (r: bool)
        requires
            index < self@.marked.len(),
        ensures
            r == self@.marked[index as int],
    {
        self.cells[index]
    }

    /// The same board with cell `index` covered.
    pub fn with_marked(self, index: usize) -> (r: Board)
        requires
            index < self@.marked.len(),
        ensures
            r@ == self@.mark(index as int),
    {
        proof {
            use_type_invariant(&self);
        }
        let Board { width, height, mut cells } = self;
        cells.set(index, true);
        Board { width, height, cells }
    }

    /// Whether every cell is covered.
    pub fn is_all_marked(&self) -> (r: bool)
        ensures
            r == self@.is_complete(),
            self@.wf(),
    {
        proof {
            use_type_invariant(self);
        }
        let mut i: usize = 0;
        while i < self.cells.len()
            invariant
                self@.wf(),
                i <= self.cells@.len(),
                forall|j: int| 0 <= j < i ==> self.cells@[j],
            decreases self.cells@.len() - i,
        {
            if !self.cells[i] {
                assert(!self@.marked[i as int]);
                return false;
            }
            i = i + 1;
        }
        true
    }

    /// The index of the first free cell in row-major order, if there is one.
    pub fn first_unmarked(&self) -> (r: Option<usize>)
        ensures
            match r {
                Some(i) => self@.is_first_unmarked(i as int) && i == self@.first_unmarked(),
                None => self@.is_complete(),
            },
            self@.wf(),
    {
        proof {
            use_type_invariant(self);
        }
        let mut i: usize = 0;
        while i < self.cells.len()
            invariant
                self@.wf(),
                i <= self.cells@.len(),
                forall|j: int| 0 <= j < i ==> self.cells@[j],
            decreases self.cells@.len() - i,
        {
            if !self.cells[i] {
                proof {
                    assert(self@.is_first_unmarked(i as int));
                    lemma_first_unmarked(self@);
                }
                return Some(i);
            }
            i = i + 1;
        }
        None
    }

    /// Whether both boards have the same size and cover the same cells.
    pub fn same_as(&self, other: &Board) -> (r: bool)
        ensures
            r == (self@ == other@),
    {
        if self.width != other.width || self.height != other.height {
            return false;
        }
        if self.cells.len() != other.cells.len() {
            return false;
        }
        let mut i: usize = 0;
        while i < self.cells.len()
            invariant
                i <= self.cells@.len(),
                self.cells@.len() == other.cells@.len(),
                forall|j: int| 0 <= j < i ==> self.cells@[j] == other.cells@[j],
            decreases self.cells@.len() - i,
        {
            if self.cells[i] != other.cells[i] {
                return false;
            }
            i = i + 1;
        }
        assert(self.cells@ =~= other.cells@);
        true
    }
}

impl PartialEq for Board {
    fn eq(&self, other: &Board) -> (r: bool) {
        self.same_as(other)
    }
}

impl Eq for Board {

}

impl PartialEqSpecImpl for Board {
    open spec fn obeys_eq_spec() -> bool {
        true
    }

    open spec fn eq_spec(&self, other: &Board) -> bool {
        self@ == other@
    }
}

impl Clone for Board {
    fn clone(&self) -> (r: Board)
        ensures
            r@ == self@,
    {
        proof {
            use_type_invariant(self);
        }
        let mut cells: Vec<bool> = Vec::new();
        let mut i: usize = 0;
        while i < self.cells.len()
            invariant
                i <= self.cells@.len(),
                cells@.len() == i,
                forall|j: int| 0 <= j < i ==> cells@[j] == self.cells@[j],
            decreases self.cells@.len() - i,
        {
            cells.push(self.cells[i]);
            i = i + 1;
        }
        assert(cells@ =~= self.cells@);
        Board { width: self.width, height: self.height, cells }
    }
}

} // verus!
