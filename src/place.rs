use vstd::prelude::*;

verus! {

/// Whether `i` is the index of one of the 81 cells.
pub open spec fn is_cell(i: int) -> bool {
    0 <= i < 81
}

/// The three kinds of unit: a row, a column and a 3x3 box.
#[derive(PartialEq, Eq, Structural, Clone, Copy, Debug)]
pub enum BlockType {
    /// The nine cells of a row.
    XLine,
    /// The nine cells of a column.
    YLine,
    /// The nine cells of a 3x3 box.
    Square,
}

/// The index of the 3x3 box of cell `i`, 0 to 8 in row-major order.
pub open spec fn box_of(i: int) -> int {
    (i / 27) * 3 + (i % 9) / 3
}

/// Whether cells `i` and `j` lie in the same unit of kind `kind`.
pub open spec fn in_unit(kind: BlockType, i: int, j: int) -> bool {
    match kind {
        BlockType::XLine => i / 9 == j / 9,
        BlockType::YLine => i % 9 == j % 9,
        BlockType::Square => box_of(i) == box_of(j),
    }
}

/// Whether `j` is another cell of the row, column or box of `i`.
pub open spec fn depends(i: int, j: int) -> bool {
    i != j && (in_unit(BlockType::XLine, i, j) || in_unit(BlockType::YLine, i, j) || in_unit(
        BlockType::Square,
        i,
        j,
    ))
}

/// The first cell of the unit of kind `kind` that holds cell `i`.
pub open spec fn unit_start(kind: BlockType, i: int) -> int {
    match kind {
        BlockType::XLine => i / 9 * 9,
        BlockType::YLine => i % 9,
        BlockType::Square => (i / 27) * 27 + (i % 9) / 3 * 3,
    }
}

/// The `k`-th cell, in ascending order, of the unit of kind `kind` that starts at `start`.
pub open spec fn unit_cell(kind: BlockType, start: int, k: int) -> int {
    match kind {
        BlockType::XLine => start + k,
        BlockType::YLine => start + 9 * k,
        BlockType::Square => start + (k / 3) * 9 + k % 3,
    }
}

/// Where cell `j` stands among the cells of its unit of kind `kind`.
pub open spec fn index_in_unit(kind: BlockType, j: int) -> int {
    match kind {
        BlockType::XLine => j % 9,
        BlockType::YLine => j / 9,
        BlockType::Square => (j / 9) % 3 * 3 + j % 3,
    }
}

/// The nine cells, in ascending order, of the unit of kind `kind` that holds cell `i`.
pub open spec fn unit_cells(kind: BlockType, i: int) -> Seq<int> {
    Seq::new(9, |k: int| unit_cell(kind, unit_start(kind, i), k))
}

/// The cell of row `3a + b` and column `3c + e`, read back through division.
pub proof fn lemma_cell_parts(a: int, b: int, c: int, e: int)
    requires
        0 <= a < 3,
        0 <= b < 3,
        0 <= c < 3,
        0 <= e < 3,
    ensures
        ({
            let j = 27 * a + 9 * b + 3 * c + e;
            &&& is_cell(j)
            &&& j / 9 == 3 * a + b
            &&& j % 9 == 3 * c + e
            &&& j / 27 == a
            &&& (j / 9) % 3 == b
            &&& (j % 9) / 3 == c
            &&& j % 3 == e
        }),
{
    let j = 27 * a + 9 * b + 3 * c + e;
    vstd::arithmetic::div_mod::lemma_fundamental_div_mod_converse(j, 9, 3 * a + b, 3 * c + e);
    vstd::arithmetic::div_mod::lemma_fundamental_div_mod_converse(j, 27, a, 9 * b + 3 * c + e);
    vstd::arithmetic::div_mod::lemma_fundamental_div_mod_converse(3 * a + b, 3, a, b);
    vstd::arithmetic::div_mod::lemma_fundamental_div_mod_converse(3 * c + e, 3, c, e);
    vstd::arithmetic::div_mod::lemma_fundamental_div_mod_converse(j, 3, 9 * a + 3 * b + c, e);
}

/// Every cell is `27a + 9b + 3c + e` for its box row `a`, row in box `b`, box column `c`
/// and column in box `e`.
pub proof fn lemma_cell_split(i: int)
    requires
        is_cell(i),
    ensures
        0 <= i / 27 < 3,
        0 <= (i / 9) % 3 < 3,
        0 <= (i % 9) / 3 < 3,
        0 <= i % 3 < 3,
        i == 27 * (i / 27) + 9 * ((i / 9) % 3) + 3 * ((i % 9) / 3) + i % 3,
{
    let a = i / 27;
    let r = i % 27;
    let b = r / 9;
    let r2 = r % 9;
    let c = r2 / 3;
    let e = r2 % 3;
    assert(i == 27 * a + r && 0 <= r < 27);
    assert(r == 9 * b + r2 && 0 <= r2 < 9);
    assert(r2 == 3 * c + e && 0 <= e < 3);
    assert(0 <= a < 3);
    assert(0 <= b < 3);
    assert(0 <= c < 3);
    lemma_cell_parts(a, b, c, e);
}

proof fn lemma_unit_member(kind: BlockType, i: int, k: int)
    requires
        is_cell(i),
        0 <= k < 9,
    ensures
        is_cell(unit_cell(kind, unit_start(kind, i), k)),
        in_unit(kind, i, unit_cell(kind, unit_start(kind, i), k)),
        index_in_unit(kind, unit_cell(kind, unit_start(kind, i), k)) == k,
{
    lemma_cell_split(i);
    let (a, b, c, e) = (i / 27, (i / 9) % 3, (i % 9) / 3, i % 3);
    lemma_cell_parts(a, b, c, e);
    let (p, q) = (k / 3, k % 3);
    assert(k == 3 * p + q && 0 <= p < 3 && 0 <= q < 3);
    match kind {
        BlockType::XLine => {
            lemma_cell_parts(a, b, p, q);
        },
        BlockType::YLine => {
            lemma_cell_parts(p, q, c, e);
        },
        BlockType::Square => {
            lemma_cell_parts(a, p, c, q);
        },
    }
}

proof fn lemma_unit_index(kind: BlockType, i: int, j: int)
    requires
        is_cell(i),
        is_cell(j),
        in_unit(kind, i, j),
    ensures
        0 <= index_in_unit(kind, j) < 9,
        unit_cell(kind, unit_start(kind, i), index_in_unit(kind, j)) == j,
{
    lemma_cell_split(i);
    lemma_cell_split(j);
    lemma_cell_parts(i / 27, (i / 9) % 3, (i % 9) / 3, i % 3);
    lemma_cell_parts(j / 27, (j / 9) % 3, (j % 9) / 3, j % 3);
    let k = index_in_unit(kind, j);
    match kind {
        BlockType::XLine => {},
        BlockType::YLine => {},
        BlockType::Square => {
            lemma_cell_parts(0, 0, (j / 9) % 3, j % 3);
        },
    }
}

/// The unit of kind `kind` of a cell `i` lists exactly the cells that share that unit
/// with `i`, each once.
pub proof fn lemma_unit_cells(kind: BlockType, i: int)
    requires
        is_cell(i),
    ensures
        unit_cells(kind, i).len() == 9,
        forall|k: int|
            0 <= k < 9 ==> is_cell(#[trigger] unit_cells(kind, i)[k]) && in_unit(
                kind,
                i,
                unit_cells(kind, i)[k],
            ) && index_in_unit(kind, unit_cells(kind, i)[k]) == k,
        forall|j: int|
            is_cell(j) && #[trigger] in_unit(kind, i, j) ==> 0 <= index_in_unit(kind, j) < 9
                && unit_cells(kind, i)[index_in_unit(kind, j)] == j,
        forall|k1: int, k2: int|
            0 <= k1 < 9 && 0 <= k2 < 9 && k1 != k2 ==> unit_cells(kind, i)[k1] != unit_cells(
                kind,
                i,
            )[k2],
{
    let s = unit_cells(kind, i);
    assert forall|k: int| 0 <= k < 9 implies is_cell(#[trigger] s[k]) && in_unit(kind, i, s[k])
        && index_in_unit(kind, s[k]) == k by {
        lemma_unit_member(kind, i, k);
    }
    assert forall|j: int| is_cell(j) && #[trigger] in_unit(kind, i, j) implies 0 <= index_in_unit(
        kind,
        j,
    ) < 9 && s[index_in_unit(kind, j)] == j by {
        lemma_unit_index(kind, i, j);
    }
    assert forall|k1: int, k2: int| 0 <= k1 < 9 && 0 <= k2 < 9 && k1 != k2 implies s[k1]
        != s[k2] by {
        lemma_unit_member(kind, i, k1);
        lemma_unit_member(kind, i, k2);
    }
}

/// The position of one of the 81 cells, as its index `y * 9 + x` in row-major order.
#[derive(PartialEq, Eq, Structural, Clone, Copy, Debug)]
pub struct Place(usize);

impl View for Place {
    type V = int;

    closed spec fn view(&self) -> int {
        self.0 as int
    }
}

impl Place {
    #[verifier::type_invariant]
    pub open spec fn wf(&self) -> bool {
        is_cell(self@)
    }

    /// The column, 0 to 8.
    pub fn x(&self) -> (r: usize)
        ensures
            r == self@ % 9,
            r < 9,
    {
        self.0 % 9
    }

    /// The row, 0 to 8.
    pub fn y(&self) -> (r: usize)
        ensures
            r == self@ / 9,
            r < 9,
    {
        proof {
            use_type_invariant(self);
        }
        self.0 / 9
    }

    /// The index in row-major order.
    pub fn raw(&self) -> (r: &usize)
        ensures
            *r == self@,
            *r < 81,
    {
        proof {
            use_type_invariant(self);
        }
        &self.0
    }

    /// The cell in column `x` and row `y`, or `None` unless both are below 9.
    pub fn new(x: usize, y: usize) -> (r: Option<Place>)
        ensures
            r is Some <==> x < 9 && y < 9,
            r matches Some(p) ==> p@ == y * 9 + x,
    {
        if x < 9 && y < 9 {
            Some(Place(y * 9 + x))
        } else {
            None
        }
    }

    /// The cell of index `i`, or `None` unless `i < 81`.
    pub fn new_from_raw(i: usize) -> (r: Option<Place>)
        ensures
            r is Some <==> i < 81,
            r matches Some(p) ==> p@ == i,
    {
        if i < 81 {
            Some(Place(i))
        } else {
            None
        }
    }

    /// The row, column and box of this cell.
    pub fn dependencies(&self) -> (r: Dependencies)
        ensures
            r@ == *self,
    {
        Dependencies(*self)
    }
}

/// The nine cells of one unit: its kind and its first cell.
#[derive(Clone, Copy, Debug)]
pub struct Block(usize, BlockType);

impl View for Block {
    type V = Seq<int>;

    /// The nine cells of the unit, in ascending order.
    closed spec fn view(&self) -> Seq<int> {
        Seq::new(9, |k: int| unit_cell(self.1, self.0 as int, k))
    }
}

impl Block {
    #[verifier::type_invariant]
    closed spec fn wf(&self) -> bool {
        exists|i: int| is_cell(i) && unit_start(self.1, i) == self.0
    }

    /// The kind of the unit.
    pub closed spec fn kind(&self) -> BlockType {
        self.1
    }

    /// The unit of kind `kind` that holds cell `place`.
    fn of(place: &Place, kind: BlockType) -> (r: Block)
        ensures
            r@ == unit_cells(kind, place@),
            r.kind() == kind,
    {
        proof {
            use_type_invariant(place);
        }
        let i = place.0;
        let start = match kind {
            BlockType::XLine => i / 9 * 9,
            BlockType::YLine => i % 9,
            BlockType::Square => (i / 27) * 27 + (i % 9) / 3 * 3,
        };
        let r = Block(start, kind);
        assert(r@ =~= unit_cells(kind, place@));
        r
    }

    /// The `k`-th cell of the unit, in ascending order.
    pub fn place_at(&self, k: usize) -> (r: Place)
        requires
            k < 9,
        ensures
            r@ == self@[k as int],
    {
        proof {
            use_type_invariant(self);
            let i = choose|i: int| is_cell(i) && unit_start(self.1, i) == self.0;
            lemma_unit_cells(self.1, i);
            assert(self@[k as int] == unit_cells(self.1, i)[k as int]);
        }
        match self.1 {
            BlockType::XLine => Place(self.0 + k),
            BlockType::YLine => Place(self.0 + 9 * k),
            BlockType::Square => Place(self.0 + (k / 3) * 9 + k % 3),
        }
    }

    /// The nine cells of the unit, in ascending order.
    pub fn into_iter(self) -> (r: PlaceIter)
        ensures
            r@ == self@,
    {
        PlaceIter { block: self, next: 0 }
    }
}

/// The cells of one unit, handed out one at a time in ascending order.
#[derive(Clone, Copy, Debug)]
pub struct PlaceIter {
    block: Block,
    next: usize,
}

impl View for PlaceIter {
    type V = Seq<int>;

    /// The cells not yet handed out.
    closed spec fn view(&self) -> Seq<int> {
        self.block@.subrange(self.next as int, 9)
    }
}

impl PlaceIter {
    #[verifier::type_invariant]
    closed spec fn wf(&self) -> bool {
        self.next <= 9
    }

    /// The next cell, if any is left.
    pub fn next(&mut self) -> (r: Option<Place>)
        ensures
            old(self)@.len() == 0 ==> r is None && final(self)@ == old(self)@,
            old(self)@.len() > 0 ==> (r matches Some(p) && p@ == old(self)@[0] && final(self)@
                == old(self)@.drop_first()),
    {
        proof {
            use_type_invariant(&*self);
        }
        if self.next < 9 {
            let p = self.block.place_at(self.next);
            self.next = self.next + 1;
            proof {
                assert(self@ =~= old(self)@.drop_first());
            }
            Some(p)
        } else {
            None
        }
    }
}

/// The three units of a cell: its row, its column and its box.
#[derive(Clone, Copy, Debug)]
pub struct Dependencies(Place);

impl View for Dependencies {
    type V = Place;

    /// The cell that the units are about.
    closed spec fn view(&self) -> Place {
        self.0
    }
}

/// The other cells of the unit of kind `kind` of cell `i`, in ascending order: its
/// nine cells without `i`.
pub open spec fn group_cells(kind: BlockType, i: int) -> Seq<int> {
    unit_cells(kind, i).remove(index_in_unit(kind, i))
}

/// The other cells of the row, then those of the column, then those of the box of `i`.
pub open spec fn dependency_cells(i: int) -> Seq<int> {
    group_cells(BlockType::XLine, i) + group_cells(BlockType::YLine, i) + group_cells(
        BlockType::Square,
        i,
    )
}

/// The other cells of a unit of `i` are the cells of that unit without `i`, in order.
#[verifier::rlimit(60)]
proof fn lemma_group_cells(kind: BlockType, i: int)
    requires
        is_cell(i),
    ensures
        group_cells(kind, i).len() == 8,
        forall|t: int|
            0 <= t < 8 ==> #[trigger] group_cells(kind, i)[t] == unit_cells(kind, i)[if t
                < index_in_unit(kind, i) {
                t
            } else {
                t + 1
            }],
        forall|t: int|
            0 <= t < 8 ==> is_cell(#[trigger] group_cells(kind, i)[t]) && depends(
                i,
                group_cells(kind, i)[t],
            ) && in_unit(kind, i, group_cells(kind, i)[t]),
        forall|j: int|
            is_cell(j) && j != i && #[trigger] in_unit(kind, i, j) ==> group_cells(kind, i)[if index_in_unit(
                kind,
                j,
            ) < index_in_unit(kind, i) {
                index_in_unit(kind, j)
            } else {
                index_in_unit(kind, j) - 1
            }] == j,
{
    lemma_unit_cells(kind, i);
    let u = unit_cells(kind, i);
    let x = index_in_unit(kind, i);
    assert(u[x] == i);
    assert forall|t: int| 0 <= t < 8 implies is_cell(#[trigger] group_cells(kind, i)[t])
        && depends(i, group_cells(kind, i)[t]) && in_unit(kind, i, group_cells(kind, i)[t]) by {
        let k = if t < x {
            t
        } else {
            t + 1
        };
        assert(group_cells(kind, i)[t] == u[k]);
        assert(u[k] != u[x]);
    }
    assert forall|j: int| is_cell(j) && j != i && #[trigger] in_unit(kind, i, j) implies group_cells(
        kind,
        i,
    )[if index_in_unit(kind, j) < x {
        index_in_unit(kind, j)
    } else {
        index_in_unit(kind, j) - 1
    }] == j by {
        let k = index_in_unit(kind, j);
        assert(u[k] == j);
    }
}

/// For every cell `i`, `dependency_cells(i)` lists 24 cells (three groups of eight),
/// none of them `i`, each in the row, column or box of `i`; and every other cell of the
/// row, column and box of `i` is among them.
pub proof fn lemma_dependency_cells(i: int)
    requires
        is_cell(i),
    ensures
        dependency_cells(i).len() == 24,
        forall|t: int|
            0 <= t < 24 ==> is_cell(#[trigger] dependency_cells(i)[t]) && depends(
                i,
                dependency_cells(i)[t],
            ),
        forall|j: int|
            is_cell(j) && #[trigger] depends(i, j) ==> exists|t: int|
                0 <= t < 24 && dependency_cells(i)[t] == j,
{
    let d = dependency_cells(i);
    let gx = group_cells(BlockType::XLine, i);
    let gy = group_cells(BlockType::YLine, i);
    let gs = group_cells(BlockType::Square, i);
    lemma_group_cells(BlockType::XLine, i);
    lemma_group_cells(BlockType::YLine, i);
    lemma_group_cells(BlockType::Square, i);
    assert forall|t: int| 0 <= t < 24 implies is_cell(#[trigger] d[t]) && depends(i, d[t]) by {
        if t < 8 {
            assert(d[t] == gx[t]);
        } else if t < 16 {
            assert(d[t] == gy[t - 8]);
        } else {
            assert(d[t] == gs[t - 16]);
        }
    }
    assert forall|j: int| is_cell(j) && #[trigger] depends(i, j) implies exists|t: int|
        0 <= t < 24 && d[t] == j by {
        if in_unit(BlockType::XLine, i, j) {
            let k = index_in_unit(BlockType::XLine, j);
            let t = if k < index_in_unit(BlockType::XLine, i) {
                k
            } else {
                k - 1
            };
            assert(d[t] == j);
        } else if in_unit(BlockType::YLine, i, j) {
            let k = index_in_unit(BlockType::YLine, j);
            let t = if k < index_in_unit(BlockType::YLine, i) {
                k
            } else {
                k - 1
            };
            assert(d[8 + t] == j);
        } else {
            let k = index_in_unit(BlockType::Square, j);
            let t = if k < index_in_unit(BlockType::Square, i) {
                k
            } else {
                k - 1
            };
            assert(d[16 + t] == j);
        }
    }
}

/// The other cells of the row, column and box of `i`.
pub open spec fn dependents(i: int) -> Set<int> {
    Set::new(|j: int| is_cell(j) && depends(i, j))
}

/// The other cells of the unit of kind `kind` of `i`, as a set.
spec fn group_set(kind: BlockType, i: int) -> Set<int> {
    Set::new(|j: int| is_cell(j) && j != i && in_unit(kind, i, j))
}

proof fn lemma_group_set(kind: BlockType, i: int)
    requires
        is_cell(i),
    ensures
        group_set(kind, i).finite(),
        group_set(kind, i).len() == 8,
{
    lemma_unit_cells(kind, i);
    lemma_group_cells(kind, i);
    let g = group_cells(kind, i);
    let x = index_in_unit(kind, i);
    assert(g.no_duplicates()) by {
        assert forall|t1: int, t2: int| 0 <= t1 < 8 && 0 <= t2 < 8 && t1 != t2 implies g[t1]
            != g[t2] by {
            let k1 = if t1 < x {
                t1
            } else {
                t1 + 1
            };
            let k2 = if t2 < x {
                t2
            } else {
                t2 + 1
            };
            assert(g[t1] == unit_cells(kind, i)[k1]);
            assert(g[t2] == unit_cells(kind, i)[k2]);
        }
    }
    g.unique_seq_to_set();
    assert forall|j: int| group_set(kind, i).contains(j) <==> g.to_set().contains(j) by {
        if group_set(kind, i).contains(j) {
            let k = index_in_unit(kind, j);
            let t = if k < x {
                k
            } else {
                k - 1
            };
            assert(g[t] == j);
        }
        if g.to_set().contains(j) {
            let t = choose|t: int| 0 <= t < g.len() && g[t] == j;
            assert(g[t] == j);
        }
    }
    assert(group_set(kind, i) =~= g.to_set());
}

/// The row and the box of `i` share two other cells; so do its column and its box;
/// its row and its column share none.
proof fn lemma_group_overlaps(i: int)
    requires
        is_cell(i),
    ensures
        group_set(BlockType::XLine, i).intersect(group_set(BlockType::Square, i)).len() == 2,
        group_set(BlockType::YLine, i).intersect(group_set(BlockType::Square, i)).len() == 2,
        group_set(BlockType::XLine, i).intersect(group_set(BlockType::YLine, i)) =~= Set::<
            int,
        >::empty(),
{
    lemma_cell_split(i);
    let (a, b, c, e) = (i / 27, (i / 9) % 3, (i % 9) / 3, i % 3);
    lemma_cell_parts(a, b, c, e);
    let rs = group_set(BlockType::XLine, i).intersect(group_set(BlockType::Square, i));
    let cs = group_set(BlockType::YLine, i).intersect(group_set(BlockType::Square, i));
    let rc = group_set(BlockType::XLine, i).intersect(group_set(BlockType::YLine, i));
    let (e1, e2) = ((e + 1) % 3, (e + 2) % 3);
    let (b1, b2) = ((b + 1) % 3, (b + 2) % 3);
    lemma_cell_parts(a, b, c, e1);
    lemma_cell_parts(a, b, c, e2);
    lemma_cell_parts(a, b1, c, e);
    lemma_cell_parts(a, b2, c, e);
    assert forall|j: int| rs.contains(j) <==> set![27 * a + 9 * b + 3 * c + e1, 27 * a + 9 * b + 3 * c
        + e2].contains(j) by {
        if is_cell(j) {
            lemma_cell_split(j);
            lemma_cell_parts(j / 27, (j / 9) % 3, (j % 9) / 3, j % 3);
        }
    }
    assert forall|j: int| cs.contains(j) <==> set![27 * a + 9 * b1 + 3 * c + e, 27 * a + 9 * b2 + 3 * c
        + e].contains(j) by {
        if is_cell(j) {
            lemma_cell_split(j);
            lemma_cell_parts(j / 27, (j / 9) % 3, (j % 9) / 3, j % 3);
        }
    }
    assert forall|j: int| !rc.contains(j) by {
        if is_cell(j) {
            lemma_cell_split(j);
            lemma_cell_parts(j / 27, (j / 9) % 3, (j % 9) / 3, j % 3);
        }
    }
    assert(rs =~= set![27 * a + 9 * b + 3 * c + e1, 27 * a + 9 * b + 3 * c + e2]);
    assert(cs =~= set![27 * a + 9 * b1 + 3 * c + e, 27 * a + 9 * b2 + 3 * c + e]);
}

/// The 24 cells that `dependency_cells(i)` lists are 20 distinct cells, exactly the other
/// cells of the row, column and box of `i`: the box shares two of them with the row and
/// two with the column.
pub proof fn lemma_dependency_count(i: int)
    requires
        is_cell(i),
    ensures
        dependency_cells(i).to_set() =~= dependents(i),
        dependents(i).finite(),
        dependents(i).len() == 20,
{
    lemma_dependency_cells(i);
    let d = dependency_cells(i);
    assert forall|j: int| d.to_set().contains(j) <==> dependents(i).contains(j) by {
        if d.to_set().contains(j) {
            let t = choose|t: int| 0 <= t < d.len() && d[t] == j;
            assert(is_cell(d[t]) && depends(i, d[t]));
        }
        if dependents(i).contains(j) {
            assert(depends(i, j));
            let t = choose|t: int| 0 <= t < 24 && d[t] == j;
            assert(d.contains(j));
        }
    }
    let r = group_set(BlockType::XLine, i);
    let c = group_set(BlockType::YLine, i);
    let b = group_set(BlockType::Square, i);
    lemma_group_set(BlockType::XLine, i);
    lemma_group_set(BlockType::YLine, i);
    lemma_group_set(BlockType::Square, i);
    lemma_group_overlaps(i);
    vstd::set_lib::lemma_set_intersect_union_lens(r, c);
    assert(r.intersect(c).len() == 0);
    let rc = r + c;
    assert(rc.intersect(b) =~= r.intersect(b) + c.intersect(b));
    assert(r.intersect(b).intersect(c.intersect(b)) =~= Set::<int>::empty());
    vstd::set_lib::lemma_set_intersect_union_lens(r.intersect(b), c.intersect(b));
    vstd::set_lib::lemma_set_intersect_union_lens(rc, b);
    assert(dependents(i) =~= rc + b);
}

impl Dependencies {
    /// The cell that the units are about.
    pub fn about(&self) -> (r: &Place)
        ensures
            *r == self@,
    {
        &self.0
    }

    /// The row of the cell.
    pub fn x_line(&self) -> (r: Block)
        ensures
            r@ == unit_cells(BlockType::XLine, self@@),
            r.kind() == BlockType::XLine,
    {
        Block::of(&self.0, BlockType::XLine)
    }

    /// The column of the cell.
    pub fn y_line(&self) -> (r: Block)
        ensures
            r@ == unit_cells(BlockType::YLine, self@@),
            r.kind() == BlockType::YLine,
    {
        Block::of(&self.0, BlockType::YLine)
    }

    /// The 3x3 box of the cell.
    pub fn square(&self) -> (r: Block)
        ensures
            r@ == unit_cells(BlockType::Square, self@@),
            r.kind() == BlockType::Square,
    {
        Block::of(&self.0, BlockType::Square)
    }

    /// The unit of kind `kind` of the cell.
    pub fn block(&self, kind: BlockType) -> (r: Block)
        ensures
            r@ == unit_cells(kind, self@@),
            r.kind() == kind,
    {
        Block::of(&self.0, kind)
    }

    /// The row, the column and the box, in that order.
    pub fn into_iter(self) -> (r: BlockIter)
        ensures
            r.about() == self@,
            r.remaining() == seq![BlockType::XLine, BlockType::YLine, BlockType::Square],
    {
        BlockIter(self, 0)
    }

    /// Appends the other cells of the unit of kind `kind` of the cell, in ascending order.
    fn push_group(&self, kind: BlockType, r: &mut Vec<Place>)
        ensures
            final(r)@.len() == old(r)@.len() + 8,
            forall|t: int| 0 <= t < old(r)@.len() ==> #[trigger] final(r)@[t] == old(r)@[t],
            forall|t: int|
                0 <= t < 8 ==> #[trigger] final(r)@[old(r)@.len() + t]@ == group_cells(
                    kind,
                    self@@,
                )[t],
    {
        let me = self.0;
        proof {
            use_type_invariant(&me);
            lemma_unit_cells(kind, me@);
            lemma_group_cells(kind, me@);
        }
        let block = Block::of(&me, kind);
        let ghost x = index_in_unit(kind, me@);
        let ghost n = old(r)@.len();
        let mut k: usize = 0;
        while k < 9
            invariant
                k <= 9,
                0 <= x < 9,
                is_cell(me@),
                x == index_in_unit(kind, me@),
                n == old(r)@.len(),
                r@.len() == n + if k > x {
                    k - 1
                } else {
                    k as int
                },
                block@ == unit_cells(kind, me@),
                unit_cells(kind, me@)[x] == me@,
                group_cells(kind, me@).len() == 8,
                forall|t: int|
                    0 <= t < 8 ==> #[trigger] group_cells(kind, me@)[t] == unit_cells(kind, me@)[if t
                        < x {
                        t
                    } else {
                        t + 1
                    }],
                forall|t: int| 0 <= t < n ==> #[trigger] r@[t] == old(r)@[t],
                forall|t: int|
                    n <= t < r@.len() ==> #[trigger] r@[t]@ == group_cells(kind, me@)[t - n],
            decreases 9 - k,
        {
            let p = block.place_at(k);
            if p != me {
                proof {
                    lemma_unit_cells(kind, me@);
                    assert(k != x);
                }
                r.push(p);
            }
            k = k + 1;
        }
    }

    /// The other cells of the row, then of the column, then of the box, each group
    /// in ascending order: three groups of eight.
    pub fn places(&self) -> (r: Vec<Place>)
        ensures
            r@.len() == 24,
            forall|t: int| 0 <= t < 24 ==> #[trigger] r@[t]@ == dependency_cells(self@@)[t],
    {
        let mut r: Vec<Place> = Vec::new();
        self.push_group(BlockType::XLine, &mut r);
        self.push_group(BlockType::YLine, &mut r);
        self.push_group(BlockType::Square, &mut r);
        proof {
            use_type_invariant(&self.0);
            let me = self.0;
            lemma_group_cells(BlockType::XLine, me@);
            lemma_group_cells(BlockType::YLine, me@);
            lemma_group_cells(BlockType::Square, me@);
            let d = dependency_cells(self@@);
            assert forall|t: int| 0 <= t < 24 implies #[trigger] r@[t]@ == d[t] by {
                if t < 8 {
                    assert(r@[0 + t]@ == d[t]);
                } else if t < 16 {
                    assert(r@[8 + (t - 8)]@ == d[t]);
                } else {
                    assert(r@[16 + (t - 16)]@ == d[t]);
                }
            }
        }
        r
    }
}

/// The units of a cell, handed out one at a time: row, column, box.
#[derive(Clone, Copy, Debug)]
pub struct BlockIter(Dependencies, usize);

impl BlockIter {
    /// The cell whose units these are.
    pub closed spec fn about(&self) -> Place {
        self.0@
    }

    /// The kinds of the units not yet handed out.
    pub closed spec fn remaining(&self) -> Seq<BlockType> {
        seq![BlockType::XLine, BlockType::YLine, BlockType::Square].subrange(
            if self.1 < 3 {
                self.1 as int
            } else {
                3
            },
            3,
        )
    }

    /// The next unit, if any is left.
    pub fn next(&mut self) -> (r: Option<Block>)
        ensures
            final(self).about() == old(self).about(),
            old(self).remaining().len() == 0 ==> r is None && final(self).remaining().len() == 0,
            old(self).remaining().len() > 0 ==> (r matches Some(b) && b.kind()
                == old(self).remaining()[0] && b@ == unit_cells(b.kind(), old(self).about()@)
                && final(self).remaining() == old(self).remaining().drop_first()),
    {
        let kind = if self.1 == 0 {
            BlockType::XLine
        } else if self.1 == 1 {
            BlockType::YLine
        } else if self.1 == 2 {
            BlockType::Square
        } else {
            return None;
        };
        let b = self.0.block(kind);
        self.1 = self.1 + 1;
        proof {
            assert(self.remaining() =~= old(self).remaining().drop_first());
        }
        Some(b)
    }
}

} // verus!
