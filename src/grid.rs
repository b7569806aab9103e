//! Uniform grid over integer cell coordinates: maps each cell to the
//! indices of the particles that lie in it.
use vstd::prelude::*;

verus! {

broadcast use vstd::seq_lib::group_seq_properties;

/// The ascending sequence of indices `0, 1, ..., n - 1`.
pub open spec fn indices(n: nat) -> Seq<usize> {
    Seq::new(n, |i: int| i as usize)
}

/// Whether particle `k` lies in cell `c`.
pub open spec fn in_cell(cells: Seq<(i64, i64)>, c: (i64, i64)) -> spec_fn(usize) -> bool {
    |k: usize| cells[k as int] == c
}

/// Indices `i < n`, ascending, whose cell `cells[i]` is `c`.
pub open spec fn members_upto(cells: Seq<(i64, i64)>, c: (i64, i64), n: nat) -> Seq<usize> {
    indices(n).filter(in_cell(cells, c))
}

/// Indices, ascending, of the particles whose cell is `c`.
pub open spec fn members(cells: Seq<(i64, i64)>, c: (i64, i64)) -> Seq<usize> {
    members_upto(cells, c, cells.len())
}

/// A particle is filed under cell `c` exactly when its cell is `c`.
pub proof fn lemma_members_contains(cells: Seq<(i64, i64)>, c: (i64, i64), j: usize)
    requires
        cells.len() <= usize::MAX,
    ensures
        members(cells, c).contains(j) <==> (j < cells.len() && cells[j as int] == c),
{
    broadcast use vstd::seq_lib::group_filter_ensures;

    let s = indices(cells.len());
    if members(cells, c).contains(j) {
        s.lemma_filter_contains_rev(in_cell(cells, c), j);
        let x = choose|x: int| 0 <= x < members(cells, c).len() && members(cells, c)[x] == j;
        s.lemma_filter_pred(in_cell(cells, c), x);
    }
    if j < cells.len() && cells[j as int] == c {
        assert(s[j as int] == j);
        s.lemma_filter_contains(in_cell(cells, c), j as int);
    }
}

proof fn lemma_members_step(cells: Seq<(i64, i64)>, c: (i64, i64), n: nat)
    requires
        n < cells.len(),
        n < usize::MAX,
    ensures
        members_upto(cells, c, n + 1) == if cells[n as int] == c {
            members_upto(cells, c, n).push(n as usize)
        } else {
            members_upto(cells, c, n)
        },
{
    assert(indices(n + 1) =~= indices(n).push(n as usize));
    indices(n).lemma_filter_push(n as usize, in_cell(cells, c));
}

/// The offsets of the 3x3 block of cells around a cell, centre first.
pub open spec fn offsets() -> Seq<(int, int)> {
    seq![(0, 0), (0, 1), (0, -1), (-1, -1), (-1, 0), (-1, 1), (1, -1), (1, 0), (1, 1)]
}

/// Cell `c` moved by offset `o`.
pub open spec fn shift(c: (i64, i64), o: (int, int)) -> (i64, i64) {
    ((c.0 + o.0) as i64, (c.1 + o.1) as i64)
}

/// The nine cells of the block around `c`, in the order of `offsets`.
pub open spec fn block(c: (i64, i64)) -> Seq<(i64, i64)> {
    offsets().map_values(|o: (int, int)| shift(c, o))
}

/// Cells `a` and `b` touch: they differ by at most one in each coordinate.
pub open spec fn near(a: (i64, i64), b: (i64, i64)) -> bool {
    -1 <= a.0 - b.0 <= 1 && -1 <= a.1 - b.1 <= 1
}

/// A cell coordinate whose neighbours are representable.
pub open spec fn inner(c: (i64, i64)) -> bool {
    i64::MIN < c.0 < i64::MAX && i64::MIN < c.1 < i64::MAX
}

/// The contents of each list of indices.
pub open spec fn views(r: Seq<Vec<usize>>) -> Seq<Seq<usize>> {
    r.map_values(|b: Vec<usize>| b@)
}

/// Some sequence of `vs` holds `j`.
pub open spec fn covers(vs: Seq<Seq<usize>>, j: usize) -> bool {
    exists|k: int| 0 <= k < vs.len() && #[trigger] vs[k].contains(j)
}

/// Exactly the cells near `c` make up its block.
pub proof fn lemma_block_near(c: (i64, i64), e: (i64, i64))
    requires
        inner(c),
    ensures
        block(c).contains(e) <==> near(e, c),
{
    let b = block(c);
    assert(b.len() == 9);
    assert(b[0] == (c.0, c.1));
    assert(b[1] == (c.0, (c.1 + 1) as i64));
    assert(b[2] == (c.0, (c.1 - 1) as i64));
    assert(b[3] == ((c.0 - 1) as i64, (c.1 - 1) as i64));
    assert(b[4] == ((c.0 - 1) as i64, c.1));
    assert(b[5] == ((c.0 - 1) as i64, (c.1 + 1) as i64));
    assert(b[6] == ((c.0 + 1) as i64, (c.1 - 1) as i64));
    assert(b[7] == ((c.0 + 1) as i64, c.1));
    assert(b[8] == ((c.0 + 1) as i64, (c.1 + 1) as i64));
    if near(e, c) {
        let t: int = if e.0 == c.0 {
            if e.1 == c.1 { 0 } else if e.1 > c.1 { 1 } else { 2 }
        } else if e.0 < c.0 {
            if e.1 < c.1 { 3 } else if e.1 == c.1 { 4 } else { 5 }
        } else {
            if e.1 < c.1 { 6 } else if e.1 == c.1 { 7 } else { 8 }
        };
        assert(b[t] == e);
    }
}

/// The `k`-th offset of the block.
fn offset(k: usize) -> (o: (i64, i64))
    requires
        k < 9,
    ensures
        o.0 == offsets()[k as int].0 && o.1 == offsets()[k as int].1,
{
    if k == 0 {
        (0, 0)
    } else if k == 1 {
        (0, 1)
    } else if k == 2 {
        (0, -1)
    } else if k == 3 {
        (-1, -1)
    } else if k == 4 {
        (-1, 0)
    } else if k == 5 {
        (-1, 1)
    } else if k == 6 {
        (1, -1)
    } else if k == 7 {
        (1, 0)
    } else {
        (1, 1)
    }
}

/// Spatial index: for every occupied cell, the particles inside it.
pub struct Grid {
    keys: Vec<(i64, i64)>,
    buckets: Vec<Vec<usize>>,
    cells: Ghost<Seq<(i64, i64)>>,
}

impl Grid {
    /// The cell of each particle the grid was last built from.
    pub closed spec fn model(&self) -> Seq<(i64, i64)> {
        self.cells@
    }

    /// The particles in cell `c`, ascending.
    pub open spec fn bucket(&self, c: (i64, i64)) -> Seq<usize> {
        members(self.model(), c)
    }

    /// The contents of the grid: each occupied cell and its particles.
    pub open spec fn view(&self) -> Map<(i64, i64), Seq<usize>> {
        Map::new(|c: (i64, i64)| self.model().contains(c), |c: (i64, i64)| self.bucket(c))
    }

    /// Occupied cells are distinct, each holds exactly the particles of its
    /// cell and at least one, and every other cell is empty.
    pub closed spec fn wf(&self) -> bool {
        &&& self.keys.len() == self.buckets.len()
        &&& self.cells@.len() <= usize::MAX
        &&& forall|a: int, b: int|
            0 <= a < self.keys.len() && 0 <= b < self.keys.len() && a != b
                ==> self.keys[a] != self.keys[b]
        &&& forall|k: int|
            0 <= k < self.keys.len() ==> #[trigger] self.buckets[k]@ == members(
                self.cells@,
                self.keys[k],
            )
        &&& forall|c: (i64, i64)|
            !self.keys@.contains(c) ==> #[trigger] members(self.cells@, c) == Seq::<usize>::empty()
        &&& forall|k: int| 0 <= k < self.buckets.len() ==> #[trigger] self.buckets[k].len() > 0
    }

    /// An empty grid.
    pub fn new() -> (g: Grid)
        ensures
            g.wf(),
            g.model() == Seq::<(i64, i64)>::empty(),
    {
        let g = Grid { keys: Vec::new(), buckets: Vec::new(), cells: Ghost(Seq::empty()) };
        proof {
            assert forall|c: (i64, i64)| !g.keys@.contains(c) implies #[trigger] members(
                g.cells@,
                c,
            ) == Seq::<usize>::empty() by {
                reveal(Seq::filter);
            }
        }
        g
    }

    /// Position of `c` among the occupied cells, if it is one.
    fn find(&self, c: (i64, i64)) -> (r: Option<usize>)
        requires
            self.keys.len() == self.buckets.len(),
        ensures
            match r {
                Some(k) => k < self.keys.len() && self.keys[k as int] == c,
                None => !self.keys@.contains(c),
            },
    {
        let mut k: usize = 0;
        while k < self.keys.len()
            invariant
                k <= self.keys.len(),
                forall|a: int| 0 <= a < k ==> self.keys[a] != c,
            decreases self.keys.len() - k,
        {
            let kc = self.keys[k];
            if kc.0 == c.0 && kc.1 == c.1 {
                return Some(k);
            }
            k += 1;
        }
        None
    }

    /// Clears the grid and files every particle `i` under its cell `cells[i]`.
    pub fn update(&mut self, cells: &Vec<(i64, i64)>)
        ensures
            final(self).wf(),
            final(self).model() == cells@,
    {
        self.keys = Vec::new();
        self.buckets = Vec::new();
        self.cells = Ghost(cells@);
        proof {
            assert forall|c: (i64, i64)| #[trigger] members_upto(cells@, c, 0) == Seq::<
                usize,
            >::empty() by {
                reveal(Seq::filter);
            }
        }
        let mut i: usize = 0;
        while i < cells.len()
            invariant
                i <= cells.len(),
                self.cells@ == cells@,
                self.keys.len() == self.buckets.len(),
                forall|a: int, b: int|
                    0 <= a < self.keys.len() && 0 <= b < self.keys.len() && a != b
                        ==> self.keys[a] != self.keys[b],
                forall|k: int|
                    0 <= k < self.keys.len() ==> #[trigger] self.buckets[k]@ == members_upto(
                        cells@,
                        self.keys[k],
                        i as nat,
                    ),
                forall|c: (i64, i64)|
                    !self.keys@.contains(c) ==> #[trigger] members_upto(cells@, c, i as nat)
                        == Seq::<usize>::empty(),
                forall|k: int| 0 <= k < self.buckets.len() ==> #[trigger] self.buckets[k].len() > 0,
            decreases cells.len() - i,
        {
            let c = cells[i];
            proof {
                assert forall|d: (i64, i64)|
                    #[trigger] members_upto(cells@, d, (i + 1) as nat) == if cells@[i as int]
                        == d {
                        members_upto(cells@, d, i as nat).push(i)
                    } else {
                        members_upto(cells@, d, i as nat)
                    } by {
                    lemma_members_step(cells@, d, i as nat);
                }
            }
            let ghost old_keys = self.keys@;
            let ghost old_buckets = self.buckets@;
            match self.find(c) {
                Some(k) => {
                    self.buckets[k].push(i);
                    proof {
                        assert forall|k2: int| 0 <= k2 < self.keys.len() implies #[trigger] self.buckets[k2]@
                            == members_upto(cells@, self.keys[k2], (i + 1) as nat) by {
                            assert(members_upto(cells@, self.keys[k2], (i + 1) as nat) == if cells@[i as int]
                                == self.keys[k2] {
                                members_upto(cells@, self.keys[k2], i as nat).push(i)
                            } else {
                                members_upto(cells@, self.keys[k2], i as nat)
                            });
                            if k2 != k as int {
                                assert(self.keys[k2] != c);
                                assert(self.buckets[k2] == old_buckets[k2]);
                            }
                        }
                    }
                },
                None => {
                    let mut b: Vec<usize> = Vec::new();
                    b.push(i);
                    self.keys.push(c);
                    self.buckets.push(b);
                    proof {
                        assert(members_upto(cells@, c, i as nat) == Seq::<usize>::empty());
                        assert(b@ =~= Seq::<usize>::empty().push(i));
                        assert forall|k2: int| 0 <= k2 < self.keys.len() implies #[trigger] self.buckets[k2]@
                            == members_upto(cells@, self.keys[k2], (i + 1) as nat) by {
                            assert(members_upto(cells@, self.keys[k2], (i + 1) as nat) == if cells@[i as int]
                                == self.keys[k2] {
                                members_upto(cells@, self.keys[k2], i as nat).push(i)
                            } else {
                                members_upto(cells@, self.keys[k2], i as nat)
                            });
                            if k2 < old_keys.len() {
                                assert(old_keys.contains(old_keys[k2]));
                                assert(self.keys[k2] != c);
                            }
                        }
                        assert forall|a: int, b2: int|
                            0 <= a < self.keys.len() && 0 <= b2 < self.keys.len() && a != b2
                                implies self.keys[a] != self.keys[b2] by {
                            if a < old_keys.len() && b2 == old_keys.len() {
                                assert(old_keys.contains(old_keys[a]));
                            }
                            if b2 < old_keys.len() && a == old_keys.len() {
                                assert(old_keys.contains(old_keys[b2]));
                            }
                        }
                    }
                },
            }
            i += 1;
            proof {
                assert forall|c2: (i64, i64)| !self.keys@.contains(c2) implies #[trigger] members_upto(
                    cells@,
                    c2,
                    i as nat,
                ) == Seq::<usize>::empty() by {
                    lemma_members_step(cells@, c2, (i - 1) as nat);
                    if c2 == c {
                        assert(self.keys@.contains(c));
                    }
                    if old_keys.contains(c2) {
                        let j = choose|j: int| 0 <= j < old_keys.len() && old_keys[j] == c2;
                        assert(self.keys@[j] == c2);
                        assert(self.keys@.contains(c2));
                    }
                }
            }
        }
    }

    /// The particles of the first `n` cells of the block around `c`, one
    /// sequence per non-empty cell.
    pub open spec fn block_contents(&self, c: (i64, i64), n: int) -> Seq<Seq<usize>> {
        block(c).take(n).map_values(|d: (i64, i64)| self.bucket(d)).filter(
            |s: Seq<usize>| s.len() > 0,
        )
    }

    proof fn lemma_block_contents_step(&self, c: (i64, i64), t: int)
        requires
            0 <= t < 9,
        ensures
            self.block_contents(c, t + 1) == if self.bucket(block(c)[t]).len() > 0 {
                self.block_contents(c, t).push(self.bucket(block(c)[t]))
            } else {
                self.block_contents(c, t)
            },
    {
        let d = block(c)[t];
        assert(block(c).take(t + 1) =~= block(c).take(t).push(d));
        assert(block(c).take(t + 1).map_values(|e: (i64, i64)| self.bucket(e)) =~= block(c).take(
            t,
        ).map_values(|e: (i64, i64)| self.bucket(e)).push(self.bucket(d)));
        block(c).take(t).map_values(|e: (i64, i64)| self.bucket(e)).lemma_filter_push(
            self.bucket(d),
            |s: Seq<usize>| s.len() > 0,
        );
    }

    /// A particle shows up in the first `n` cells of the block exactly when
    /// its cell is one of them.
    proof fn lemma_block_contents_cover(&self, c: (i64, i64), n: int, j: usize)
        requires
            0 <= n <= 9,
            self.model().len() <= usize::MAX,
        ensures
            covers(self.block_contents(c, n), j) <==> (j < self.model().len() && block(
                c,
            ).take(n).contains(self.model()[j as int])),
        decreases n,
    {
        let vs = self.block_contents(c, n);
        if n == 0 {
            assert(block(c).take(0).map_values(|e: (i64, i64)| self.bucket(e)) =~= Seq::<
                Seq<usize>,
            >::empty());
            reveal(Seq::filter);
            assert(vs.len() == 0);
        } else {
            let t = n - 1;
            let d = block(c)[t];
            let prev = self.block_contents(c, t);
            self.lemma_block_contents_cover(c, t, j);
            self.lemma_block_contents_step(c, t);
            lemma_members_contains(self.model(), d, j);
            assert(block(c).take(n) =~= block(c).take(t).push(d));
            if covers(vs, j) {
                let k = choose|k: int| 0 <= k < vs.len() && #[trigger] vs[k].contains(j);
                if k < prev.len() {
                    assert(prev[k].contains(j));
                    let x = choose|x: int|
                        0 <= x < t && #[trigger] block(c).take(t)[x] == self.model()[j as int];
                    assert(block(c).take(n)[x] == self.model()[j as int]);
                } else {
                    assert(block(c).take(n)[t] == self.model()[j as int]);
                }
            }
            if j < self.model().len() && block(c).take(n).contains(self.model()[j as int]) {
                let x = choose|x: int|
                    0 <= x < n && #[trigger] block(c).take(n)[x] == self.model()[j as int];
                if x < t {
                    assert(block(c).take(t)[x] == self.model()[j as int]);
                    let k = choose|k: int| 0 <= k < prev.len() && #[trigger] prev[k].contains(j);
                    assert(vs[k].contains(j));
                } else {
                    assert(self.bucket(d).contains(j));
                    assert(vs[vs.len() - 1].contains(j));
                }
            }
        }
    }

    /// The contents of the non-empty cells of the 3x3 block around cell `c`.
    pub fn neighbor_cells(&self, c: (i64, i64)) -> (r: Vec<Vec<usize>>)
        requires
            self.wf(),
            inner(c),
        ensures
            views(r@) == self.block_contents(c, 9),
            forall|j: usize|
                #[trigger] covers(views(r@), j) <==> (j < self.model().len()
                    && near(self.model()[j as int], c)),
    {
        let mut res: Vec<Vec<usize>> = Vec::new();
        let mut t: usize = 0;
        while t < 9
            invariant
                self.wf(),
                inner(c),
                t <= 9,
                views(res@) == self.block_contents(c, t as int),
            decreases 9 - t,
        {
            let o = offset(t);
            let d = (c.0 + o.0, c.1 + o.1);
            let ghost before = res@;
            proof {
                assert(d == block(c)[t as int]);
                self.lemma_block_contents_step(c, t as int);
            }
            match self.find(d) {
                Some(idx) => {
                    let b = self.buckets[idx].clone();
                    proof {
                        assert(b@ =~= self.bucket(d));
                    }
                    res.push(b);
                    proof {
                        assert(views(res@) =~= views(before).push(b@));
                    }
                },
                None => {
                    proof {
                        assert(self.bucket(d).len() == 0);
                    }
                },
            }
            t += 1;
        }
        proof {
            assert(block(c).take(9) =~= block(c));
            assert forall|j: usize|
                #[trigger] covers(views(res@), j) <==> (j
                    < self.model().len() && near(self.model()[j as int], c)) by {
                self.lemma_block_contents_cover(c, 9, j);
                if j < self.model().len() {
                    lemma_block_near(c, self.model()[j as int]);
                }
            }
        }
        res
    }
}

/// The particles filed under a cell come without repetition, and each is
/// below the bound `n`.
pub proof fn lemma_members_distinct(cells: Seq<(i64, i64)>, c: (i64, i64), n: nat)
    requires
        n <= cells.len(),
        cells.len() <= usize::MAX,
    ensures
        members_upto(cells, c, n).no_duplicates(),
        forall|x: usize| #[trigger] members_upto(cells, c, n).contains(x) ==> x < n,
    decreases n,
{
    if n == 0 {
        reveal(Seq::filter);
    } else {
        let m = (n - 1) as nat;
        lemma_members_distinct(cells, c, m);
        lemma_members_step(cells, c, m);
        let prev = members_upto(cells, c, m);
        let cur = members_upto(cells, c, n);
        assert forall|x: usize| #[trigger] cur.contains(x) implies x < n by {
            if cur != prev {
                let y = choose|y: int| 0 <= y < cur.len() && cur[y] == x;
                if y < prev.len() {
                    assert(prev[y] == x);
                }
            }
        }
        if cur != prev {
            assert forall|a: int, b: int|
                0 <= a < cur.len() && 0 <= b < cur.len() && a != b implies cur[a] != cur[b] by {
                if a < prev.len() && b < prev.len() {
                } else if a < prev.len() {
                    assert(prev.contains(cur[a]));
                } else {
                    assert(prev.contains(cur[b]));
                }
            }
        }
    }
}

/// The nine cells of a block are distinct.
pub proof fn lemma_block_distinct(c: (i64, i64))
    requires
        inner(c),
    ensures
        block(c).no_duplicates(),
{
    let b = block(c);
    assert(b[0] == (c.0, c.1));
    assert(b[1] == (c.0, (c.1 + 1) as i64));
    assert(b[2] == (c.0, (c.1 - 1) as i64));
    assert(b[3] == ((c.0 - 1) as i64, (c.1 - 1) as i64));
    assert(b[4] == ((c.0 - 1) as i64, c.1));
    assert(b[5] == ((c.0 - 1) as i64, (c.1 + 1) as i64));
    assert(b[6] == ((c.0 + 1) as i64, (c.1 - 1) as i64));
    assert(b[7] == ((c.0 + 1) as i64, c.1));
    assert(b[8] == ((c.0 + 1) as i64, (c.1 + 1) as i64));
}

impl Grid {
    /// The particles of the 3x3 block around cell `c`, each once: exactly
    /// those whose cell touches `c`.
    pub fn candidates(&self, c: (i64, i64)) -> (r: Vec<usize>)
        requires
            self.wf(),
            inner(c),
        ensures
            r@.no_duplicates(),
            forall|j: usize|
                #[trigger] r@.contains(j) <==> (j < self.model().len() && near(
                    self.model()[j as int],
                    c,
                )),
    {
        let ghost model = self.model();
        proof {
            lemma_block_distinct(c);
        }
        let mut flat: Vec<usize> = Vec::new();
        let mut t: usize = 0;
        while t < 9
            invariant
                self.wf(),
                model == self.model(),
                inner(c),
                block(c).no_duplicates(),
                t <= 9,
                flat@.no_duplicates(),
                forall|j: usize|
                    #[trigger] flat@.contains(j) <==> (j < model.len() && block(c).take(
                        t as int,
                    ).contains(model[j as int])),
            decreases 9 - t,
        {
            let o = offset(t);
            let d = (c.0 + o.0, c.1 + o.1);
            proof {
                assert(d == block(c)[t as int]);
                assert(block(c).take(t + 1) =~= block(c).take(t as int).push(d));
                assert(!block(c).take(t as int).contains(d)) by {
                    if block(c).take(t as int).contains(d) {
                        let y = choose|y: int| 0 <= y < t && #[trigger] block(c).take(t as int)[y] == d;
                        assert(block(c)[y] == block(c)[t as int]);
                    }
                }
            }
            match self.find(d) {
                Some(idx) => {
                    let cell = &self.buckets[idx];
                    proof {
                        assert(cell@ == self.bucket(d));
                        lemma_members_distinct(model, d, model.len());
                    }
                    let mut m: usize = 0;
                    while m < cell.len()
                        invariant
                            cell@ == members(model, d),
                            members(model, d).no_duplicates(),
                            model.len() <= usize::MAX,
                            m <= cell.len(),
                            !block(c).take(t as int).contains(d),
                            flat@.no_duplicates(),
                            forall|j: usize|
                                #[trigger] flat@.contains(j) <==> ((j < model.len() && block(
                                    c,
                                ).take(t as int).contains(model[j as int])) || cell@.take(
                                    m as int,
                                ).contains(j)),
                        decreases cell.len() - m,
                    {
                        let x = cell[m];
                        let ghost before = flat@;
                        proof {
                            lemma_members_contains(model, d, x);
                            assert(cell@.contains(x));
                            assert(cell@.take(m + 1) =~= cell@.take(m as int).push(x));
                            assert(!cell@.take(m as int).contains(x)) by {
                                if cell@.take(m as int).contains(x) {
                                    let y = choose|y: int| 0 <= y < m && #[trigger] cell@.take(m as int)[y] == x;
                                    assert(cell@[y] == cell@[m as int]);
                                }
                            }
                            assert(!before.contains(x));
                        }
                        flat.push(x);
                        proof {
                            assert forall|a: int, b: int|
                                0 <= a < flat@.len() && 0 <= b < flat@.len() && a != b implies flat@[a]
                                != flat@[b] by {
                                if a < before.len() && b == before.len() {
                                    assert(before.contains(before[a]));
                                }
                                if b < before.len() && a == before.len() {
                                    assert(before.contains(before[b]));
                                }
                            }
                            assert forall|j: usize| #[trigger] flat@.contains(j) <==> ((j < model.len()
                                && block(c).take(t as int).contains(model[j as int])) || cell@.take(
                                m + 1,
                            ).contains(j)) by {
                                if before.contains(j) {
                                    let y = choose|y: int| 0 <= y < before.len() && before[y] == j;
                                    assert(flat@[y] == j);
                                }
                                if flat@.contains(j) && j != x {
                                    let y = choose|y: int| 0 <= y < flat@.len() && flat@[y] == j;
                                    assert(before[y] == j);
                                }
                                if cell@.take(m + 1).contains(j) && j != x {
                                    let y = choose|y: int| 0 <= y < m + 1 && #[trigger] cell@.take(m + 1)[y] == j;
                                    assert(cell@.take(m as int)[y] == j);
                                }
                                assert(flat@[flat@.len() - 1] == x);
                                assert(cell@.take(m + 1)[m as int] == x);
                            }
                        }
                        m += 1;
                    }
                    proof {
                        assert(cell@.take(cell.len() as int) =~= cell@);
                    }
                },
                None => {
                    proof {
                        assert(self.bucket(d).len() == 0);
                    }
                },
            }
            proof {
                assert forall|j: usize| #[trigger] flat@.contains(j) <==> (j < model.len() && block(
                    c,
                ).take(t + 1).contains(model[j as int])) by {
                    lemma_members_contains(model, d, j);
                    if j < model.len() && block(c).take(t + 1).contains(model[j as int]) {
                        let y = choose|y: int| 0 <= y < t + 1 && #[trigger] block(c).take(t + 1)[y] == model[j as int];
                        if y < t {
                            assert(block(c).take(t as int)[y] == model[j as int]);
                        }
                    }
                    if j < model.len() && block(c).take(t as int).contains(model[j as int]) {
                        let y = choose|y: int| 0 <= y < t && #[trigger] block(c).take(t as int)[y] == model[j as int];
                        assert(block(c).take(t + 1)[y] == model[j as int]);
                    }
                    if j < model.len() && model[j as int] == d {
                        assert(block(c).take(t + 1)[t as int] == model[j as int]);
                    }
                }
            }
            t += 1;
        }
        proof {
            assert(block(c).take(9) =~= block(c));
            assert forall|j: usize| j < model.len() implies block(c).contains(model[j as int]) == near(
                #[trigger] model[j as int],
                c,
            ) by {
                lemma_block_near(c, model[j as int]);
            }
        }
        flat
    }
}

/// Rebuilding from unchanged cells gives the same contents: two grids
/// built from the same cells hold the same particles in every cell.
pub proof fn lemma_rebuild_idempotent(a: &Grid, b: &Grid, cells: Seq<(i64, i64)>)
    requires
        a.model() == cells,
        b.model() == cells,
    ensures
        a@ == b@,
        forall|c: (i64, i64)| #[trigger] a.bucket(c) == b.bucket(c),
{
    assert(a@ =~= b@);
}

} // verus!
