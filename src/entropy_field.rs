use crate::entropy::{Entropy, EntropyConflictError, Value, all_digits, lemma_full_disable};
use crate::place::{
    Block,
    BlockType,
    Place,
    dependency_cells,
    depends,
    in_unit,
    index_in_unit,
    is_cell,
    lemma_dependency_cells,
    lemma_unit_cells,
    unit_cells,
};
use vstd::prelude::*;

verus! {

/// The number of cells.
pub const CELLS_COUNT: usize = 81;

/// The length of the byte form of a grid: four bytes per cell.
pub const BITS_LENGTH: usize = 4 * CELLS_COUNT;

/// Byte `b` (0 to 3, least significant first) of the mask `m`.
pub open spec fn mask_byte(m: u32, b: u32) -> u8 {
    ((m >> (8 * b)) & 0xff) as u8
}

/// The mask of cell `i` read from `bytes`: four bytes, least significant first.
pub open spec fn read_mask(bytes: Seq<u8>, i: int) -> u32 {
    (bytes[4 * i] as u32) | ((bytes[4 * i + 1] as u32) << 8u32) | ((bytes[4 * i + 2] as u32)
        << 16u32) | ((bytes[4 * i + 3] as u32) << 24u32)
}

/// `bytes` is the byte form of `cells`: the 81 masks in row-major order, four bytes
/// each, least significant first.
pub open spec fn encodes(cells: Seq<Entropy>, bytes: Seq<u8>) -> bool {
    &&& bytes.len() == 324
    &&& forall|i: int, b: int|
        0 <= i < 81 && 0 <= b < 4 ==> #[trigger] bytes[4 * i + b] == mask_byte(
            cells[i].mask(),
            b as u32,
        )
}

/// The four bytes of a mask read back give the mask.
proof fn lemma_bytes_of_mask(m: u32)
    ensures
        ((mask_byte(m, 0) as u32) | ((mask_byte(m, 1) as u32) << 8u32) | ((mask_byte(m, 2) as u32)
            << 16u32) | ((mask_byte(m, 3) as u32) << 24u32)) == m,
{
    assert(((((m >> 0u32) & 0xff) as u8 as u32) | (((((m >> 8u32) & 0xff) as u8) as u32) << 8u32)
        | (((((m >> 16u32) & 0xff) as u8) as u32) << 16u32) | (((((m >> 24u32) & 0xff) as u8)
        as u32) << 24u32)) == m) by (bit_vector);
}

/// Reading back the byte form of well-formed cells gives every cell's exact mask, each
/// of them one that `try_from_bytes` accepts.
pub proof fn lemma_round_trip(cells: Seq<Entropy>, bytes: Seq<u8>)
    requires
        encodes(cells, bytes),
        forall|i: int| 0 <= i < 81 ==> (#[trigger] cells[i]).wf(),
    ensures
        forall|i: int|
            0 <= i < 81 ==> #[trigger] read_mask(bytes, i) == cells[i].mask() && read_mask(bytes, i)
                != 0 && crate::entropy::in_range(read_mask(bytes, i)),
{
    assert forall|i: int| 0 <= i < 81 implies #[trigger] read_mask(bytes, i) == cells[i].mask()
        && read_mask(bytes, i) != 0 && crate::entropy::in_range(read_mask(bytes, i)) by {
        assert(cells[i].wf());
        let m = cells[i].mask();
        assert(bytes[4 * i + 0] == mask_byte(m, 0));
        assert(bytes[4 * i + 1] == mask_byte(m, 1));
        assert(bytes[4 * i + 2] == mask_byte(m, 2));
        assert(bytes[4 * i + 3] == mask_byte(m, 3));
        lemma_bytes_of_mask(m);
    }
}

/// Whether some cell of the unit of kind `kind` of cell `i` holds `d` in `sol`.
pub open spec fn unit_has(sol: Seq<int>, kind: BlockType, i: int, d: int) -> bool {
    exists|j: int| is_cell(j) && in_unit(kind, i, j) && sol[j] == d
}

/// A solution of the puzzle: a digit for each of the 81 cells such that every row,
/// column and box holds every digit, and no two cells of a row, column or box agree.
pub open spec fn is_solution(sol: Seq<int>) -> bool {
    &&& sol.len() == 81
    &&& forall|i: int| is_cell(i) ==> 1 <= #[trigger] sol[i] <= 9
    &&& forall|i: int, j: int|
        is_cell(i) && is_cell(j) && #[trigger] depends(i, j) ==> sol[i] != sol[j]
    &&& forall|kind: BlockType, i: int, d: int|
        is_cell(i) && 1 <= d <= 9 ==> #[trigger] unit_has(sol, kind, i, d)
}

/// Whether every cell of `cells` still admits the digit that `sol` gives it.
pub open spec fn admits(cells: Seq<Entropy>, sol: Seq<int>) -> bool {
    forall|i: int| is_cell(i) ==> #[trigger] cells[i]@.contains(sol[i])
}

/// Whether each cell of `after` holds no digit that it did not hold in `before`.
pub open spec fn narrows(before: Seq<Entropy>, after: Seq<Entropy>) -> bool {
    forall|i: int| is_cell(i) ==> #[trigger] after[i]@.subset_of(before[i]@)
}

/// Every cell with a single candidate left that still shares that digit with a cell of
/// its row, column or box is in `pending`.
pub open spec fn settled_except(cells: Seq<Entropy>, pending: Set<int>) -> bool {
    forall|i: int, j: int, d: int|
        is_cell(i) && is_cell(j) && #[trigger] depends(i, j) && cells[i]@.len() == 1
            && #[trigger] cells[i]@.contains(d) && #[trigger] cells[j]@.contains(d)
            ==> pending.contains(i)
}

/// The propagation fixpoint: the digit of every cell with a single candidate left is
/// ruled out of all the other cells of its row, column and box.
pub open spec fn is_consistent(cells: Seq<Entropy>) -> bool {
    settled_except(cells, Set::empty())
}

/// The cells named in a list of pending pairs.
pub open spec fn places_in<T>(pairs: Seq<(T, Place)>) -> Set<int> {
    Set::new(|c: int| exists|k: int| 0 <= k < pairs.len() && #[trigger] pairs[k].1@ == c)
}

/// Whether `sol` gives each cell of a pending pair its digit.
pub open spec fn forced(sol: Seq<int>, pairs: Seq<(Value, Place)>) -> bool {
    forall|k: int| 0 <= k < pairs.len() ==> sol[#[trigger] pairs[k].1@] == pairs[k].0@
}

/// Whether `sol` gives each cell of a pending pair a digit of its set.
pub open spec fn forced_sets(sol: Seq<int>, pairs: Seq<(Entropy, Place)>) -> bool {
    forall|k: int| 0 <= k < pairs.len() ==> (#[trigger] pairs[k]).0@.contains(sol[pairs[k].1@])
}

/// The sum of the candidate counts of all cells.
spec fn total(cells: Seq<Entropy>) -> int
    decreases cells.len(),
{
    if cells.len() == 0 {
        0
    } else {
        total(cells.drop_last()) + cells.last()@.len()
    }
}

proof fn lemma_total_nonneg(cells: Seq<Entropy>)
    ensures
        total(cells) >= 0,
    decreases cells.len(),
{
    if cells.len() > 0 {
        lemma_total_nonneg(cells.drop_last());
    }
}

proof fn lemma_total_update(cells: Seq<Entropy>, i: int, e: Entropy)
    requires
        0 <= i < cells.len(),
    ensures
        total(cells.update(i, e)) == total(cells) - cells[i]@.len() + e@.len(),
    decreases cells.len(),
{
    if i == cells.len() - 1 {
        assert(cells.update(i, e).drop_last() =~= cells.drop_last());
    } else {
        lemma_total_update(cells.drop_last(), i, e);
        assert(cells.update(i, e).drop_last() =~= cells.drop_last().update(i, e));
    }
}

proof fn lemma_singles_mono(cells: Seq<Entropy>, a: Set<(int, int)>, b: Set<(int, int)>)
    requires
        singles_closed_except(cells, a),
        a.subset_of(b),
    ensures
        singles_closed_except(cells, b),
{
}

proof fn lemma_settled_mono(cells: Seq<Entropy>, a: Set<int>, b: Set<int>)
    requires
        settled_except(cells, a),
        a.subset_of(b),
    ensures
        settled_except(cells, b),
{
}

/// A nonempty subset of a one-element set is that set.
proof fn lemma_subset_single(small: Set<int>, big: Set<int>, d: int)
    requires
        big.finite(),
        big.len() == 1,
        big.contains(d),
        small.subset_of(big),
        small.contains(d),
    ensures
        small =~= big,
        small.len() == 1,
{
    crate::entropy::lemma_singleton(big, d);
    assert(small =~= big);
}

/// A cell `u` that is the only one of a unit of `c` to admit `v`, where `c` does not
/// admit it, holds `v` in every solution that the cells admit.
proof fn lemma_hidden_single(
    cells: Seq<Entropy>,
    sol: Seq<int>,
    kind: BlockType,
    c: int,
    u: int,
    v: int,
)
    requires
        is_solution(sol),
        admits(cells, sol),
        is_cell(c),
        1 <= v <= 9,
        !cells[c]@.contains(v),
        forall|w: int|
            is_cell(w) && in_unit(kind, c, w) && w != c && w != u ==> !cells[w]@.contains(v),
    ensures
        sol[u] == v,
{
    assert(unit_has(sol, kind, c, v));
    let j = choose|j: int| is_cell(j) && in_unit(kind, c, j) && sol[j] == v;
    assert(cells[j]@.contains(sol[j]));
}

/// The total superposition: the product of the candidate counts of all cells.
pub open spec fn superposition(cells: Seq<Entropy>) -> int
    decreases cells.len(),
{
    if cells.len() == 0 {
        1
    } else {
        superposition(cells.drop_last()) * cells.last()@.len()
    }
}

proof fn lemma_superposition_fresh(cells: Seq<Entropy>)
    requires
        forall|i: int| 0 <= i < cells.len() ==> (#[trigger] cells[i])@ =~= all_digits(),
    ensures
        superposition(cells) == vstd::arithmetic::power::pow(9, cells.len()),
    decreases cells.len(),
{
    reveal(vstd::arithmetic::power::pow);
    if cells.len() > 0 {
        let rest = cells.drop_last();
        assert forall|i: int| 0 <= i < rest.len() implies (#[trigger] rest[i])@ =~= all_digits() by {
            assert(rest[i] == cells[i]);
        }
        lemma_superposition_fresh(rest);
        lemma_full_disable(Set::empty(), 1);
        assert(cells.last()@.len() == 9);
        assert(superposition(cells) == superposition(rest) * 9);
        assert(vstd::arithmetic::power::pow(9, cells.len()) == 9 * vstd::arithmetic::power::pow(
            9,
            (cells.len() - 1) as nat,
        ));
    }
}

proof fn lemma_superposition_one(cells: Seq<Entropy>)
    requires
        forall|i: int| 0 <= i < cells.len() ==> (#[trigger] cells[i]).wf(),
    ensures
        superposition(cells) >= 1,
        superposition(cells) == 1 <==> forall|i: int|
            0 <= i < cells.len() ==> (#[trigger] cells[i])@.len() == 1,
    decreases cells.len(),
{
    if cells.len() > 0 {
        let rest = cells.drop_last();
        assert forall|i: int| 0 <= i < rest.len() implies (#[trigger] rest[i]).wf() by {
            assert(rest[i] == cells[i]);
        }
        lemma_superposition_one(rest);
        let n = cells.last()@.len();
        cells.last().lemma_wf();
        let p = superposition(rest);
        assert(p * n >= 1) by (nonlinear_arith)
            requires
                p >= 1,
                n >= 1,
        ;
        assert(p * n == 1 ==> p == 1 && n == 1) by (nonlinear_arith)
            requires
                p >= 1,
                n >= 1,
        ;
        if forall|i: int| 0 <= i < cells.len() ==> (#[trigger] cells[i])@.len() == 1 {
            assert forall|i: int| 0 <= i < rest.len() implies (#[trigger] rest[i])@.len() == 1 by {
                assert(rest[i] == cells[i]);
            }
        }
        if superposition(cells) == 1 {
            assert forall|i: int| 0 <= i < cells.len() implies (#[trigger] cells[i])@.len() == 1 by {
                if i < rest.len() {
                    assert(rest[i] == cells[i]);
                }
            }
        }
    }
}

/// A fresh grid has total superposition 9^81; a well-formed grid has total
/// superposition 1 exactly when every cell is decided, and never less.
pub proof fn lemma_superposition(fresh: Seq<Entropy>, cells: Seq<Entropy>)
    requires
        fresh.len() == 81,
        forall|i: int| 0 <= i < 81 ==> (#[trigger] fresh[i])@ =~= all_digits(),
        cells.len() == 81,
        forall|i: int| 0 <= i < 81 ==> (#[trigger] cells[i]).wf(),
    ensures
        superposition(fresh) == vstd::arithmetic::power::pow(9, 81),
        superposition(cells) >= 1,
        superposition(cells) == 1 <==> forall|i: int| 0 <= i < 81 ==> (#[trigger] cells[i])@.len() == 1,
{
    lemma_superposition_fresh(fresh);
    lemma_superposition_one(cells);
}

/// A cell that holds a digit alone keeps it through any narrowing of the grid that
/// leaves the cell well-formed, such as further successful placements.
pub proof fn lemma_placed_digit_stays(before: Seq<Entropy>, after: Seq<Entropy>, c: int, v: int)
    requires
        is_cell(c),
        narrows(before, after),
        after[c].wf(),
        before[c]@ == set![v],
    ensures
        after[c]@ == set![v],
{
    after[c].lemma_wf();
    let w = after[c]@.choose();
    assert(after[c]@.contains(w));
    assert(after[c]@.subset_of(before[c]@));
    assert(after[c]@ =~= set![v]);
}

/// Once a digit stands alone in a cell of a grid at the propagation fixpoint, every
/// other cell of that cell's row, column and box has lost it: placing the same digit
/// there meets an empty intersection, which `insert` reports as an error naming that
/// cell and leaving the grid unchanged. Over a chain of successful placements the digit
/// stays alone (`lemma_placed_digit_stays`) and the grid stays at the fixpoint (`insert`).
pub proof fn lemma_same_digit_conflicts(cells: Seq<Entropy>, c1: int, c2: int, v: int)
    requires
        is_consistent(cells),
        is_cell(c1),
        is_cell(c2),
        depends(c1, c2),
        cells[c1]@ =~= set![v],
    ensures
        cells[c2]@.intersect(set![v]) =~= Set::<int>::empty(),
{
    assert(cells[c1]@.contains(v));
    if cells[c2]@.contains(v) {
        assert(Set::<int>::empty().contains(c1));
    }
}

/// A fixed filling of the grid: with the row `3a + b` and the column `3c + e`, the digit
/// `(3b + a + 3c + e) % 9 + 1`.
spec fn pattern(i: int) -> int {
    (3 * ((i / 9) % 3) + i / 27 + 3 * ((i % 9) / 3) + i % 3) % 9 + 1
}

/// `x` with the digits `s` and `v` exchanged.
spec fn swap_digit(x: int, s: int, v: int) -> int {
    if x == s {
        v
    } else if x == v {
        s
    } else {
        x
    }
}

/// A solution with digit `v` at cell `c`: the fixed filling with two digits exchanged.
spec fn solution_with(c: int, v: int) -> Seq<int> {
    Seq::new(81, |i: int| swap_digit(pattern(i), pattern(c), v))
}

proof fn lemma_mod9_distinct(k: int, u: int, w: int)
    requires
        0 <= k,
        0 <= u < 9,
        0 <= w < 9,
        u != w,
    ensures
        (k + u) % 9 != (k + w) % 9,
{
    vstd::arithmetic::div_mod::lemma_fundamental_div_mod(k + u, 9);
    vstd::arithmetic::div_mod::lemma_fundamental_div_mod(k + w, 9);
    if (k + u) % 9 == (k + w) % 9 {
        assert(9 * ((k + u) / 9) - 9 * ((k + w) / 9) == u - w);
        vstd::arithmetic::mul::lemma_mul_is_distributive_sub(9, (k + u) / 9, (k + w) / 9);
        if (k + u) / 9 > (k + w) / 9 {
            vstd::arithmetic::mul::lemma_mul_inequality(1, (k + u) / 9 - (k + w) / 9, 9);
        } else if (k + u) / 9 < (k + w) / 9 {
            vstd::arithmetic::mul::lemma_mul_inequality(1, (k + w) / 9 - (k + u) / 9, 9);
        }
    }
}

/// The cell of the given parts holds the digit `(3b + a + 3c + e) % 9 + 1` in the fixed filling.
proof fn lemma_pattern_parts(a: int, b: int, c: int, e: int)
    requires
        0 <= a < 3,
        0 <= b < 3,
        0 <= c < 3,
        0 <= e < 3,
    ensures
        pattern(27 * a + 9 * b + 3 * c + e) == (3 * b + a + 3 * c + e) % 9 + 1,
{
    crate::place::lemma_cell_parts(a, b, c, e);
}

/// The digit `t + 1` for `0 <= t < 9`, reached from any base `k`.
proof fn lemma_mod9_hit(k: int, t: int)
    requires
        0 <= k < 9,
        0 <= t < 9,
    ensures
        0 <= (t - k + 9) % 9 < 9,
        (k + (t - k + 9) % 9) % 9 == t,
{
    if t >= k {
        assert((t - k + 9) % 9 == t - k);
    } else {
        assert((t - k + 9) % 9 == t - k + 9);
    }
}

proof fn lemma_pattern_is_solution()
    ensures
        is_solution(Seq::new(81, |i: int| pattern(i))),
{
    let sol = Seq::new(81, |i: int| pattern(i));
    assert forall|i: int, j: int| is_cell(i) && is_cell(j) && #[trigger] depends(i, j) implies sol[i]
        != sol[j] by {
        crate::place::lemma_cell_split(i);
        crate::place::lemma_cell_split(j);
        let (a, b, c, e) = (i / 27, (i / 9) % 3, (i % 9) / 3, i % 3);
        let (a2, b2, c2, e2) = (j / 27, (j / 9) % 3, (j % 9) / 3, j % 3);
        crate::place::lemma_cell_parts(a, b, c, e);
        crate::place::lemma_cell_parts(a2, b2, c2, e2);
        lemma_pattern_parts(a, b, c, e);
        lemma_pattern_parts(a2, b2, c2, e2);
        if in_unit(BlockType::XLine, i, j) {
            lemma_mod9_distinct(3 * b + a, 3 * c + e, 3 * c2 + e2);
        } else if in_unit(BlockType::YLine, i, j) {
            lemma_mod9_distinct(3 * c + e, 3 * b + a, 3 * b2 + a2);
        } else {
            lemma_mod9_distinct(a + 3 * c, 3 * b + e, 3 * b2 + e2);
        }
    }
    assert forall|kind: BlockType, i: int, d: int| is_cell(i) && 1 <= d <= 9 implies #[trigger] unit_has(
        sol,
        kind,
        i,
        d,
    ) by {
        crate::place::lemma_cell_split(i);
        let (a, b, c, e) = (i / 27, (i / 9) % 3, (i % 9) / 3, i % 3);
        crate::place::lemma_cell_parts(a, b, c, e);
        match kind {
            BlockType::XLine => {
                let t = (d - 1 - (3 * b + a) + 9) % 9;
                lemma_mod9_hit(3 * b + a, d - 1);
                let (c2, e2) = (t / 3, t % 3);
                let j = 27 * a + 9 * b + 3 * c2 + e2;
                crate::place::lemma_cell_parts(a, b, c2, e2);
                lemma_pattern_parts(a, b, c2, e2);
                assert(is_cell(j) && in_unit(kind, i, j) && sol[j] == d);
            },
            BlockType::YLine => {
                let t = (d - 1 - (3 * c + e) + 9) % 9;
                lemma_mod9_hit(3 * c + e, d - 1);
                let (b2, a2) = (t / 3, t % 3);
                let j = 27 * a2 + 9 * b2 + 3 * c + e;
                crate::place::lemma_cell_parts(a2, b2, c, e);
                lemma_pattern_parts(a2, b2, c, e);
                assert(is_cell(j) && in_unit(kind, i, j) && sol[j] == d);
            },
            BlockType::Square => {
                let t = (d - 1 - (a + 3 * c) + 9) % 9;
                lemma_mod9_hit(a + 3 * c, d - 1);
                let (b2, e2) = (t / 3, t % 3);
                let j = 27 * a + 9 * b2 + 3 * c + e2;
                crate::place::lemma_cell_parts(a, b2, c, e2);
                lemma_pattern_parts(a, b2, c, e2);
                assert(is_cell(j) && in_unit(kind, i, j) && sol[j] == d);
            },
        }
    }
}

/// For every cell `c` and digit `v` there is a solution with `v` at `c`.
proof fn lemma_solution_with(c: int, v: int)
    requires
        is_cell(c),
        1 <= v <= 9,
    ensures
        is_solution(solution_with(c, v)),
        solution_with(c, v)[c] == v,
{
    lemma_pattern_is_solution();
    let base = Seq::new(81, |i: int| pattern(i));
    let s = pattern(c);
    let sol = solution_with(c, v);
    assert(1 <= s <= 9) by {
        assert(1 <= base[c] <= 9);
    }
    assert forall|i: int| is_cell(i) implies 1 <= #[trigger] sol[i] <= 9 by {
        assert(1 <= base[i] <= 9);
    }
    assert forall|i: int, j: int| is_cell(i) && is_cell(j) && #[trigger] depends(i, j) implies sol[i]
        != sol[j] by {
        assert(base[i] != base[j]);
    }
    assert forall|kind: BlockType, i: int, d: int| is_cell(i) && 1 <= d <= 9 implies #[trigger] unit_has(
        sol,
        kind,
        i,
        d,
    ) by {
        let d2 = swap_digit(d, s, v);
        assert(unit_has(base, kind, i, d2));
        let j = choose|j: int| is_cell(j) && in_unit(kind, i, j) && base[j] == d2;
        assert(sol[j] == d);
    }
}

/// Placing a digit `v` at a cell `c` of a fresh grid succeeds, leaves `v` alone at `c`,
/// and rules `v` out at all 24 dependency cells of `c`. `after` and `ok` stand for the
/// grid and the outcome that `insert` gives, as its contract describes them.
pub proof fn lemma_place_on_fresh_grid(before: Seq<Entropy>, c: int, v: int, after: Seq<Entropy>, ok: bool)
    requires
        before.len() == 81,
        forall|i: int| 0 <= i < 81 ==> (#[trigger] before[i])@ =~= all_digits(),
        is_cell(c),
        1 <= v <= 9,
        forall|i: int| 0 <= i < 81 ==> (#[trigger] after[i]).wf(),
        ok ==> after[c]@.subset_of(set![v]),
        ok && is_consistent(before) ==> is_consistent(after),
        forall|sol: Seq<int>|
            is_solution(sol) && admits(before, sol) && set![v].contains(sol[c]) ==> ok && admits(
                after,
                sol,
            ),
    ensures
        ok,
        after[c]@ =~= set![v],
        forall|t: int| 0 <= t < 24 ==> !after[#[trigger] dependency_cells(c)[t]]@.contains(v),
{
    lemma_solution_with(c, v);
    let sol = solution_with(c, v);
    assert(admits(before, sol));
    assert(after[c]@.contains(v));
    assert(is_consistent(before)) by {
        assert forall|i: int, j: int, d: int|
            is_cell(i) && is_cell(j) && #[trigger] depends(i, j) && before[i]@.len() == 1
                && #[trigger] before[i]@.contains(d) && #[trigger] before[j]@.contains(d) implies false by {
            lemma_full_disable(Set::empty(), 1);
            assert(before[i]@.contains(1) && before[i]@.contains(2));
            crate::entropy::lemma_singleton(before[i]@, 1);
        }
    }
    lemma_dependency_cells(c);
    assert forall|t: int| 0 <= t < 24 implies !after[#[trigger] dependency_cells(c)[t]]@.contains(v) by {
        let j = dependency_cells(c)[t];
        assert(depends(c, j) && is_cell(j));
        assert(set![v].len() == 1);
        assert(after[c]@ =~= set![v]);
        assert(after[c]@.len() == 1);
        if after[j]@.contains(v) {
            assert(Set::<int>::empty().contains(c));
        }
    }
}

/// `u` is the one cell of the unit of kind `kind` of `c`, other than `c`, that admits `v`.
pub open spec fn sole_holder(cells: Seq<Entropy>, kind: BlockType, c: int, v: int, u: int) -> bool {
    &&& is_cell(u)
    &&& u != c
    &&& in_unit(kind, c, u)
    &&& cells[u]@.contains(v)
    &&& forall|w: int|
        is_cell(w) && in_unit(kind, c, w) && w != c && w != u ==> !(#[trigger] cells[w]@).contains(v)
}

/// The hidden single of digit `v` in the unit of kind `kind` of `c`, as a list of zero or
/// one cells.
pub open spec fn unit_single(cells: Seq<Entropy>, kind: BlockType, c: int, v: int) -> Seq<int> {
    if exists|u: int| sole_holder(cells, kind, c, v, u) {
        seq![choose|u: int| sole_holder(cells, kind, c, v, u)]
    } else {
        Seq::empty()
    }
}

/// The hidden singles of digit `v` in the units of `c` among the first `g` of row, column
/// and box, in that order.
pub open spec fn singles_upto(cells: Seq<Entropy>, c: int, v: int, g: int) -> Seq<int> {
    if g <= 0 {
        Seq::empty()
    } else if g == 1 {
        unit_single(cells, BlockType::XLine, c, v)
    } else if g == 2 {
        unit_single(cells, BlockType::XLine, c, v) + unit_single(cells, BlockType::YLine, c, v)
    } else {
        unit_single(cells, BlockType::XLine, c, v) + unit_single(cells, BlockType::YLine, c, v)
            + unit_single(cells, BlockType::Square, c, v)
    }
}

/// The hidden singles of digit `v` in the row, column and box of `c`, in that order.
pub open spec fn hidden_singles(cells: Seq<Entropy>, c: int, v: int) -> Seq<int> {
    singles_upto(cells, c, v, 3)
}

/// In the unit of kind `kind` of cell `i`, cell `u` is the only one that still admits `d`.
pub open spec fn only_place(cells: Seq<Entropy>, kind: BlockType, i: int, d: int, u: int) -> bool {
    &&& is_cell(u)
    &&& in_unit(kind, i, u)
    &&& cells[u]@.contains(d)
    &&& forall|w: int|
        is_cell(w) && in_unit(kind, i, w) && w != u ==> !(#[trigger] cells[w]@).contains(d)
}

/// Every hidden single left unresolved (a cell that is the only place of a digit in one
/// of its units but still holds other digits) is in `pending`, as (cell, digit).
pub open spec fn singles_closed_except(cells: Seq<Entropy>, pending: Set<(int, int)>) -> bool {
    forall|kind: BlockType, i: int, d: int, u: int|
        is_cell(i) && #[trigger] only_place(cells, kind, i, d, u) && cells[u]@ != set![d]
            ==> pending.contains((u, d))
}

/// The fixpoint of the hidden-single rule: a cell that is the only place of a digit in a
/// row, column or box holds that digit alone.
pub open spec fn is_singles_closed(cells: Seq<Entropy>) -> bool {
    singles_closed_except(cells, Set::empty())
}

/// The (cell, digit) pairs of a list of forced pairs.
pub open spec fn value_pairs(pairs: Seq<(Value, Place)>) -> Set<(int, int)> {
    Set::new(
        |x: (int, int)|
            exists|k: int| 0 <= k < pairs.len() && #[trigger] pairs[k].1@ == x.0 && pairs[k].0@ == x.1,
    )
}

/// The (cell, digit) pairs of the entries of a work list that narrow a cell to one digit.
pub open spec fn single_pairs(pairs: Seq<(Entropy, Place)>) -> Set<(int, int)> {
    Set::new(
        |x: (int, int)|
            exists|k: int|
                0 <= k < pairs.len() && #[trigger] pairs[k].1@ == x.0 && pairs[k].0@ == set![x.1],
    )
}

/// After cell `w` lost some digits, a hidden single either was one before or comes from
/// a digit that `w` lost in the same unit.
proof fn lemma_singles_after_loss(
    before: Seq<Entropy>,
    after: Seq<Entropy>,
    w: int,
    kind: BlockType,
    i: int,
    d: int,
    u: int,
)
    requires
        is_cell(w),
        forall|j: int| is_cell(j) && j != w ==> after[j] == before[j],
        after[w]@.subset_of(before[w]@),
        after[w].wf(),
        before[u].wf(),
        only_place(after, kind, i, d, u),
        after[u]@ != set![d],
    ensures
        (only_place(before, kind, i, d, u) && before[u]@ != set![d]) || (in_unit(kind, i, w)
            && before[w]@.contains(d) && !after[w]@.contains(d)),
{
    if u == w {
        assert(before[u]@.contains(d));
        if before[u]@ == set![d] {
            after[w].lemma_wf();
            assert(after[w]@ =~= set![d]);
        }
    } else {
        assert(before[u] == after[u]);
    }
    if !only_place(before, kind, i, d, u) {
        let w2 = choose|w2: int|
            is_cell(w2) && in_unit(kind, i, w2) && w2 != u && (#[trigger] before[w2]@).contains(d);
        if w2 != w {
            assert(after[w2] == before[w2]);
        }
    }
}

/// A cell that is the only place of `v` in a unit of `c`, where `c` lacks `v`, is among
/// the hidden singles of `v` at `c`.
proof fn lemma_in_hidden_singles(cells: Seq<Entropy>, kind: BlockType, i: int, c: int, v: int, u: int)
    requires
        only_place(cells, kind, i, v, u),
        in_unit(kind, i, c),
        is_cell(c),
        !cells[c]@.contains(v),
    ensures
        exists|k: int|
            0 <= k < hidden_singles(cells, c, v).len() && hidden_singles(cells, c, v)[k] == u,
{
    assert(u != c);
    assert(sole_holder(cells, kind, c, v, u));
    lemma_sole_holder_unique(cells, kind, c, v, u);
    let h = hidden_singles(cells, c, v);
    let ux = unit_single(cells, BlockType::XLine, c, v);
    let uy = unit_single(cells, BlockType::YLine, c, v);
    let us = unit_single(cells, BlockType::Square, c, v);
    assert(h == ux + uy + us);
    match kind {
        BlockType::XLine => {
            assert(h[0] == u);
        },
        BlockType::YLine => {
            assert(h[ux.len() as int] == u);
        },
        BlockType::Square => {
            assert(h[(ux.len() + uy.len()) as int] == u);
        },
    }
}

/// Every unresolved hidden single is pending in `pend` or `rem`, or is owed a scan: its
/// unit holds `c` and its digit is in `owed`.
spec fn closed_owing(
    cells: Seq<Entropy>,
    pend: Set<(int, int)>,
    rem: Seq<(Value, Place)>,
    c: int,
    owed: Set<int>,
) -> bool {
    forall|kind: BlockType, i: int, d: int, u: int|
        is_cell(i) && #[trigger] only_place(cells, kind, i, d, u) && cells[u]@ != set![d]
            ==> pend.contains((u, d)) || value_pairs(rem).contains((u, d)) || (in_unit(kind, i, c)
            && owed.contains(d))
}

/// With no scan owed, appending to `rem` keeps every hidden single pending.
proof fn lemma_owing_extend(
    cells: Seq<Entropy>,
    pend: Set<(int, int)>,
    rem: Seq<(Value, Place)>,
    rem2: Seq<(Value, Place)>,
    c: int,
    c2: int,
)
    requires
        closed_owing(cells, pend, rem, c, Set::empty()),
        rem.len() <= rem2.len(),
        forall|k: int| 0 <= k < rem.len() ==> #[trigger] rem2[k] == rem[k],
    ensures
        closed_owing(cells, pend, rem2, c2, Set::empty()),
{
    assert forall|kind: BlockType, i: int, d: int, u: int|
        is_cell(i) && #[trigger] only_place(cells, kind, i, d, u) && cells[u]@ != set![d] implies pend.contains(
        (u, d),
    ) || value_pairs(rem2).contains((u, d)) || (in_unit(kind, i, c2) && Set::<int>::empty().contains(
        d,
    )) by {
        if value_pairs(rem).contains((u, d)) {
            let k = choose|k: int| 0 <= k < rem.len() && #[trigger] rem[k].1@ == u && rem[k].0@ == d;
            assert(rem2[k] == rem[k]);
        } else {
            assert(!Set::<int>::empty().contains(d));
        }
    }
}

/// Appending the hidden singles of `v` at `c` pays the scan owed for `v`.
proof fn lemma_scan_pays(
    cells: Seq<Entropy>,
    pend: Set<(int, int)>,
    before: Seq<(Value, Place)>,
    after: Seq<(Value, Place)>,
    c: int,
    v: Value,
    owed: Set<int>,
)
    requires
        closed_owing(cells, pend, before, c, owed),
        is_cell(c),
        !cells[c]@.contains(v@),
        after.len() == before.len() + hidden_singles(cells, c, v@).len(),
        forall|k: int| 0 <= k < before.len() ==> #[trigger] after[k] == before[k],
        forall|k: int|
            0 <= k < hidden_singles(cells, c, v@).len() ==> #[trigger] after[before.len() + k].1@
                == hidden_singles(cells, c, v@)[k] && after[before.len() + k].0 == v,
    ensures
        closed_owing(cells, pend, after, c, owed.remove(v@)),
{
    assert forall|kind: BlockType, i: int, d: int, u: int|
        is_cell(i) && #[trigger] only_place(cells, kind, i, d, u) && cells[u]@ != set![d] implies pend.contains(
        (u, d),
    ) || value_pairs(after).contains((u, d)) || (in_unit(kind, i, c) && owed.remove(v@).contains(
        d,
    )) by {
        if value_pairs(before).contains((u, d)) {
            let k = choose|k: int|
                0 <= k < before.len() && #[trigger] before[k].1@ == u && before[k].0@ == d;
            assert(after[k] == before[k]);
        } else if !pend.contains((u, d)) && in_unit(kind, i, c) && d == v@ {
            lemma_in_hidden_singles(cells, kind, i, c, v@, u);
            let k = choose|k: int|
                0 <= k < hidden_singles(cells, c, v@).len() && hidden_singles(cells, c, v@)[k] == u;
            assert(after[before.len() + k].1@ == u);
        }
    }
}

/// After cell `w` lost the digits of `lost` (and no other cell changed), every new
/// unresolved hidden single is owed a scan of `w`.
proof fn lemma_loss_owes(
    before: Seq<Entropy>,
    after: Seq<Entropy>,
    pend: Set<(int, int)>,
    rem: Seq<(Value, Place)>,
    w: int,
    lost: Set<int>,
)
    requires
        is_cell(w),
        forall|j: int| is_cell(j) && j != w ==> after[j] == before[j],
        after[w]@.subset_of(before[w]@),
        after[w].wf(),
        forall|j: int| is_cell(j) ==> (#[trigger] before[j]).wf(),
        forall|d: int| before[w]@.contains(d) && !after[w]@.contains(d) ==> lost.contains(d),
        closed_owing(before, pend, rem, w, Set::empty()),
    ensures
        closed_owing(after, pend, rem, w, lost),
{
    assert forall|kind: BlockType, i: int, d: int, u: int|
        is_cell(i) && #[trigger] only_place(after, kind, i, d, u) && after[u]@ != set![d] implies pend.contains(
        (u, d),
    ) || value_pairs(rem).contains((u, d)) || (in_unit(kind, i, w) && lost.contains(d)) by {
        assert(before[u].wf());
        lemma_singles_after_loss(before, after, w, kind, i, d, u);
        if only_place(before, kind, i, d, u) && before[u]@ != set![d] {
            assert(!Set::<int>::empty().contains(d));
        }
    }
}

/// `j` is among the first `t` cells that `dependency_cells(i)` lists.
pub open spec fn listed_before(i: int, t: int, j: int) -> bool {
    exists|t1: int| 0 <= t1 < t && #[trigger] dependency_cells(i)[t1] == j
}

/// The hidden singles of `v` at `c`, as (digit, cell) pairs.
pub open spec fn singles_pairs(cells: Seq<Entropy>, c: int, v: int) -> Seq<(int, int)> {
    hidden_singles(cells, c, v).map_values(|u: int| (v, u))
}

/// The pairs of the first pass of a step: for each digit of `removed` up to `k`, in
/// ascending order, the hidden singles it leaves around `p` in `c1`.
pub open spec fn first_pass(c1: Seq<Entropy>, p: int, removed: Set<int>, k: int) -> Seq<(int, int)>
    decreases k,
{
    if k <= 0 {
        Seq::empty()
    } else {
        first_pass(c1, p, removed, k - 1) + if removed.contains(k) {
            singles_pairs(c1, p, k)
        } else {
            Seq::empty()
        }
    }
}

/// `c1` with `v` taken out of the first `t` cells that `dependency_cells(p)` lists.
pub open spec fn excluded(c1: Seq<Entropy>, p: int, v: int, t: int) -> Seq<Entropy> {
    Seq::new(
        c1.len(),
        |j: int|
            if listed_before(p, t, j) {
                c1[j].without(v)
            } else {
                c1[j]
            },
    )
}

/// The pairs of the exclusion pass of a step, over the first `t` dependency cells of
/// `p`: where a cell loses `v`, the hidden singles of `v` around it, then the cell
/// itself if it is left with one digit.
pub open spec fn exclusion_pass(c1: Seq<Entropy>, p: int, v: int, t: int) -> Seq<(int, int)>
    decreases t,
{
    if t <= 0 {
        Seq::empty()
    } else {
        let q = dependency_cells(p)[t - 1];
        let s = excluded(c1, p, v, t);
        exclusion_pass(c1, p, v, t - 1) + if !listed_before(p, t - 1, q) && c1[q]@.contains(v) {
            singles_pairs(s, q, v) + if s[q]@.len() == 1 {
                seq![(choose|w: int| s[q]@ == set![w], q)]
            } else {
                Seq::empty()
            }
        } else {
            Seq::empty()
        }
    }
}

/// The (digit, cell) pairs that one propagation step returns for narrowing cell `p`
/// of `cells` by `e`, where it succeeds.
pub open spec fn step_pairs(cells: Seq<Entropy>, p: int, e: Entropy) -> Seq<(int, int)> {
    let c1 = cells.update(p, cells[p].meet(e));
    let x = c1[p]@;
    first_pass(c1, p, cells[p]@.difference(e@), 9) + if x.len() == 1 {
        exclusion_pass(c1, p, choose|v: int| x == set![v], 24)
    } else {
        Seq::empty()
    }
}

/// The forced pairs `pairs` are, in order, the (digit, cell) pairs `expect`.
pub open spec fn matches_pairs(pairs: Seq<(Value, Place)>, expect: Seq<(int, int)>) -> bool {
    &&& pairs.len() == expect.len()
    &&& forall|k: int|
        0 <= k < pairs.len() ==> (#[trigger] pairs[k]).0@ == expect[k].0 && pairs[k].1@ == expect[k].1
}

/// Appending the hidden singles of `v` at `c` to pairs that match `expect` gives pairs
/// that match `expect` followed by those hidden singles.
proof fn lemma_matches_scan(
    before: Seq<(Value, Place)>,
    after: Seq<(Value, Place)>,
    expect: Seq<(int, int)>,
    cells: Seq<Entropy>,
    c: int,
    v: Value,
)
    requires
        matches_pairs(before, expect),
        after.len() == before.len() + hidden_singles(cells, c, v@).len(),
        forall|k: int| 0 <= k < before.len() ==> #[trigger] after[k] == before[k],
        forall|k: int|
            0 <= k < hidden_singles(cells, c, v@).len() ==> #[trigger] after[before.len() + k].1@
                == hidden_singles(cells, c, v@)[k] && after[before.len() + k].0 == v,
    ensures
        matches_pairs(after, expect + singles_pairs(cells, c, v@)),
{
    let e2 = expect + singles_pairs(cells, c, v@);
    assert forall|k: int| 0 <= k < after.len() implies (#[trigger] after[k]).0@ == e2[k].0
        && after[k].1@ == e2[k].1 by {
        if k < before.len() {
            assert(after[k] == before[k]);
        } else {
            let j = k - before.len();
            let h = hidden_singles(cells, c, v@);
            assert(0 <= j < h.len());
            assert(after[before.len() + j].1@ == h[j] && after[before.len() + j].0 == v);
            assert(after[before.len() + j] == after[k]);
            assert(singles_pairs(cells, c, v@)[j] == (v@, h[j]));
            assert(e2[k] == singles_pairs(cells, c, v@)[j]);
        }
    }
}

proof fn lemma_excluded_step(
    c1: Seq<Entropy>,
    p: int,
    v: int,
    t: int,
    before: Seq<Entropy>,
    after: Seq<Entropy>,
    q: int,
)
    requires
        0 <= t,
        q == dependency_cells(p)[t],
        is_cell(q),
        c1.len() == 81,
        1 <= v <= 9,
        forall|j: int| is_cell(j) ==> (#[trigger] before[j])@ == excluded(c1, p, v, t)[j]@,
        forall|j: int| is_cell(j) && j != q ==> after[j] == before[j],
        after[q]@ == before[q]@.remove(v),
    ensures
        forall|j: int| is_cell(j) ==> (#[trigger] after[j])@ == excluded(c1, p, v, t + 1)[j]@,
{
    assert forall|j: int| is_cell(j) implies (#[trigger] after[j])@ == excluded(c1, p, v, t + 1)[j]@ by {
        c1[j].lemma_without_meet(c1[j], v);
        assert(listed_before(p, t + 1, q)) by {
            assert(dependency_cells(p)[t] == q);
        }
        if j == q {
            assert(before[j]@ == excluded(c1, p, v, t)[j]@);
            assert(after[q]@ =~= c1[q]@.remove(v));
        } else {
            assert(before[j]@ == excluded(c1, p, v, t)[j]@);
            if listed_before(p, t + 1, j) {
                let t1 = choose|t1: int| 0 <= t1 < t + 1 && #[trigger] dependency_cells(p)[t1] == j;
                assert(t1 != t);
                assert(listed_before(p, t, j));
            }
        }
    }
}

/// The pairs that one step of the exclusion pass appends are those `exclusion_pass` gives.
proof fn lemma_exclusion_pairs(
    c1: Seq<Entropy>,
    p: int,
    v: Value,
    t: int,
    q: Place,
    after: Seq<Entropy>,
    before_q: Set<int>,
    before_rem: Seq<(Value, Place)>,
    mid_rem: Seq<(Value, Place)>,
    rem: Seq<(Value, Place)>,
    conv: Option<Value>,
    e: Set<int>,
    removed: Set<int>,
)
    requires
        0 <= t < 24,
        q@ == dependency_cells(p)[t],
        is_cell(q@),
        c1.len() == 81,
        1 <= v@ <= 9,
        before_q == excluded(c1, p, v@, t)[q@]@,
        before_q.contains(v@),
        c1[q@].without(v@)@ == c1[q@]@.remove(v@),
        forall|j: int| is_cell(j) ==> (#[trigger] after[j])@ == excluded(c1, p, v@, t + 1)[j]@,
        e == after[q@]@,
        matches_pairs(before_rem, first_pass(c1, p, removed, 9) + exclusion_pass(c1, p, v@, t)),
        mid_rem.len() == before_rem.len() + hidden_singles(after, q@, v@).len(),
        forall|k: int| 0 <= k < before_rem.len() ==> #[trigger] mid_rem[k] == before_rem[k],
        forall|k: int|
            0 <= k < hidden_singles(after, q@, v@).len() ==> #[trigger] mid_rem[before_rem.len()
                + k].1@ == hidden_singles(after, q@, v@)[k] && mid_rem[before_rem.len() + k].0 == v,
        conv is Some <==> e.len() == 1,
        conv matches Some(w) ==> e == set![w@] && rem == mid_rem.push((w, q)),
        conv is None ==> rem == mid_rem,
    ensures
        matches_pairs(rem, first_pass(c1, p, removed, 9) + exclusion_pass(c1, p, v@, t + 1)),
{
    let qi = q@;
    let pt = first_pass(c1, p, removed, 9) + exclusion_pass(c1, p, v@, t);
    let s1 = excluded(c1, p, v@, t + 1);
    if listed_before(p, t, qi) {
        assert(!before_q.contains(v@));
    }
    assert(c1[qi]@.contains(v@));
    lemma_hidden_singles_views(after, s1, qi, v@);
    lemma_matches_scan(before_rem, mid_rem, pt, after, qi, v);
    let sp = singles_pairs(s1, qi, v@);
    let cp = if s1[qi]@.len() == 1 {
        seq![(choose|w: int| s1[qi]@ == set![w], qi)]
    } else {
        Seq::<(int, int)>::empty()
    };
    assert(exclusion_pass(c1, p, v@, t + 1) == exclusion_pass(c1, p, v@, t) + (sp + cp));
    assert(s1[qi]@ == e);
    if let Some(w) = conv {
        let cw = choose|w2: int| s1[qi]@ == set![w2];
        assert(s1[qi]@ == set![cw]);
        assert(set![cw].contains(w@));
        assert(cp == seq![(w@, qi)]);
    }
    let full = pt + (sp + cp);
    assert(full =~= (pt + sp) + cp);
    assert forall|k: int| 0 <= k < rem.len() implies (#[trigger] rem[k]).0@ == full[k].0
        && rem[k].1@ == full[k].1 by {
        if k < mid_rem.len() {
            assert(rem[k] == mid_rem[k]);
        }
    }
}

proof fn lemma_first_pass_skip(c1: Seq<Entropy>, p: int, removed: Set<int>, b: int, k: int)
    requires
        0 <= b <= k,
        forall|d: int| b < d <= k ==> !removed.contains(d),
    ensures
        first_pass(c1, p, removed, k) == first_pass(c1, p, removed, b),
    decreases k,
{
    if k > b {
        lemma_first_pass_skip(c1, p, removed, b, k - 1);
        assert(first_pass(c1, p, removed, k) =~= first_pass(c1, p, removed, k - 1));
    }
}

/// The hidden singles depend on the candidate sets of the cells alone.
proof fn lemma_hidden_singles_views(a: Seq<Entropy>, b: Seq<Entropy>, c: int, v: int)
    requires
        forall|j: int| is_cell(j) ==> (#[trigger] a[j])@ == b[j]@,
    ensures
        hidden_singles(a, c, v) == hidden_singles(b, c, v),
{
    assert forall|kind: BlockType| unit_single(a, kind, c, v) == unit_single(b, kind, c, v) by {
        assert forall|u: int| sole_holder(a, kind, c, v, u) == sole_holder(b, kind, c, v, u) by {
            if sole_holder(a, kind, c, v, u) {
                assert forall|w: int|
                    is_cell(w) && in_unit(kind, c, w) && w != c && w != u implies !(
                    #[trigger] b[w]@).contains(v) by {
                    assert(a[w]@ == b[w]@);
                }
            }
            if sole_holder(b, kind, c, v, u) {
                assert forall|w: int|
                    is_cell(w) && in_unit(kind, c, w) && w != c && w != u implies !(
                    #[trigger] a[w]@).contains(v) by {
                    assert(a[w]@ == b[w]@);
                }
            }
        }
        if exists|u: int| sole_holder(a, kind, c, v, u) {
            let u = choose|u: int| sole_holder(a, kind, c, v, u);
            lemma_sole_holder_unique(a, kind, c, v, u);
            lemma_sole_holder_unique(b, kind, c, v, u);
        }
    }
}

proof fn lemma_sole_holder_unique(cells: Seq<Entropy>, kind: BlockType, c: int, v: int, u: int)
    requires
        sole_holder(cells, kind, c, v, u),
    ensures
        unit_single(cells, kind, c, v) == seq![u],
{
    let w = choose|w: int| sole_holder(cells, kind, c, v, w);
    if w != u {
        assert(!cells[u]@.contains(v));
    }
}

/// The 81 cells of a puzzle, each with the digits it may still take.
pub struct EntropyField {
    cells: Vec<Entropy>,
}

impl View for EntropyField {
    type V = Seq<Entropy>;

    closed spec fn view(&self) -> Seq<Entropy> {
        self.cells@
    }
}

impl Default for EntropyField {
    fn default() -> (r: EntropyField)
        ensures
            r.wf(),
            forall|i: int| 0 <= i < 81 ==> (#[trigger] r@[i])@ =~= all_digits(),
            is_consistent(r@),
            is_singles_closed(r@),
    {
        EntropyField::new()
    }
}

impl Clone for EntropyField {
    fn clone(&self) -> (r: EntropyField)
        ensures
            r@ == self@,
    {
        let mut cells: Vec<Entropy> = Vec::new();
        let mut i: usize = 0;
        while i < self.cells.len()
            invariant
                i <= self.cells@.len(),
                cells@ == self.cells@.subrange(0, i as int),
            decreases self.cells@.len() - i,
        {
            cells.push(self.cells[i]);
            i = i + 1;
            proof {
                assert(cells@ =~= self.cells@.subrange(0, i as int));
            }
        }
        proof {
            assert(cells@ =~= self.cells@);
        }
        EntropyField { cells }
    }
}

/// A rule violation found while placing: the conflict, and the cell that was being
/// narrowed when it came up.
#[derive(Clone, Copy, Debug)]
pub struct RuleViolationError {
    pub conflict: EntropyConflictError,
    pub place: Place,
}

impl EntropyField {
    pub open spec fn wf(&self) -> bool {
        &&& self@.len() == 81
        &&& forall|i: int| 0 <= i < 81 ==> (#[trigger] self@[i]).wf()
    }

    /// Whether every cell has exactly one candidate left.
    pub open spec fn solved(&self) -> bool {
        forall|i: int| 0 <= i < 81 ==> (#[trigger] self@[i])@.len() == 1
    }

    /// The grid with every digit possible in every cell.
    pub fn new() -> (r: EntropyField)
        ensures
            r.wf(),
            forall|i: int| 0 <= i < 81 ==> (#[trigger] r@[i])@ =~= all_digits(),
            is_consistent(r@),
            is_singles_closed(r@),
    {
        let mut cells: Vec<Entropy> = Vec::new();
        let mut i: usize = 0;
        while i < CELLS_COUNT
            invariant
                i <= 81,
                cells@.len() == i,
                forall|k: int| 0 <= k < i ==> (#[trigger] cells@[k]).wf() && cells@[k]@ =~= all_digits(),
            decreases 81 - i,
        {
            cells.push(Entropy::new());
            i = i + 1;
        }
        let r = EntropyField { cells };
        proof {
            assert forall|i: int, j: int, d: int|
                is_cell(i) && is_cell(j) && #[trigger] depends(i, j) && r@[i]@.len() == 1
                    && #[trigger] r@[i]@.contains(d) && #[trigger] r@[j]@.contains(d) implies false by {
                r@[i].lemma_wf();
                assert(r@[i]@.contains(1) && r@[i]@.contains(2));
                crate::entropy::lemma_singleton(r@[i]@, 1);
            }
            assert forall|kind: BlockType, i: int, d: int, u: int|
                is_cell(i) && #[trigger] only_place(r@, kind, i, d, u) && r@[u]@ != set![
                    d,
                ] implies Set::<(int, int)>::empty().contains((u, d)) by {
                lemma_unit_cells(kind, i);
                let w = if unit_cells(kind, i)[0] == u {
                    unit_cells(kind, i)[1]
                } else {
                    unit_cells(kind, i)[0]
                };
                assert(r@[u]@.contains(d));
                assert(r@[w]@.contains(d));
            }
        }
        r
    }

    /// The candidate set of the cell `place`.
    pub fn entropy_at(&self, place: &Place) -> (r: &Entropy)
        requires
            self.wf(),
        ensures
            *r == self@[place@],
    {
        &self.cells[*place.raw()]
    }

    /// Whether every cell has exactly one candidate left.
    pub fn is_solved(&self) -> (r: bool)
        requires
            self.wf(),
        ensures
            r == self.solved(),
    {
        let mut i: usize = 0;
        while i < CELLS_COUNT
            invariant
                i <= 81,
                self.wf(),
                forall|k: int| 0 <= k < i ==> (#[trigger] self@[k])@.len() == 1,
            decreases 81 - i,
        {
            if self.cells[i].len() != 1 {
                return false;
            }
            i = i + 1;
        }
        true
    }

    /// The one cell of `block` other than `changing` that still admits `value`, where
    /// there is exactly one.
    fn unique_holder(&self, block: &Block, value: &Value, changing: &Place) -> (r: Option<Place>)
        requires
            self.wf(),
            block@ == unit_cells(block.kind(), changing@),
        ensures
            r matches Some(u) ==> sole_holder(self@, block.kind(), changing@, value@, u@),
            r is None ==> forall|u: int| !sole_holder(self@, block.kind(), changing@, value@, u),
    {
        proof {
            use_type_invariant(changing);
            lemma_unit_cells(block.kind(), changing@);
        }
        let ghost kind = block.kind();
        let ghost u = block@;
        let mut first: Option<Place> = None;
        let ghost mut fk: int = 0;
        let ghost mut sk: int = 0;
        let mut many = false;
        let mut k: usize = 0;
        while k < 9 && !many
            invariant
                k <= 9,
                self.wf(),
                u == block@,
                u == unit_cells(kind, changing@),
                u.len() == 9,
                !many ==> (first matches Some(f) ==> f@ != changing@),
                !many ==> (first matches Some(f) ==> self@[f@]@.contains(value@)),
                !many ==> (first matches Some(f) ==> 0 <= fk < k),
                !many ==> (first matches Some(f) ==> u[fk] == f@),
                !many ==> forall|k1: int|
                    0 <= k1 < k && u[k1] != changing@ && (first matches Some(f) ==> u[k1] != f@)
                        ==> !self@[#[trigger] u[k1]]@.contains(value@),
                many ==> 0 <= fk < 9 && 0 <= sk < 9 && fk != sk && u[fk] != changing@ && u[sk]
                    != changing@ && self@[u[fk]]@.contains(value@) && self@[u[sk]]@.contains(value@),
                forall|k1: int, k2: int|
                    0 <= k1 < 9 && 0 <= k2 < 9 && k1 != k2 ==> u[k1] != u[k2],
                forall|k1: int|
                    0 <= k1 < 9 ==> is_cell(#[trigger] u[k1]) && in_unit(kind, changing@, u[k1]),
            decreases 9 - k,
        {
            let q = block.place_at(k);
            if *q.raw() != *changing.raw() && self.cells[*q.raw()].is_possible(value) {
                if first.is_some() {
                    many = true;
                    proof {
                        sk = k as int;
                    }
                } else {
                    first = Some(q);
                    proof {
                        fk = k as int;
                    }
                }
            }
            k = k + 1;
        }
        if many {
            proof {
                assert forall|x: int| !sole_holder(self@, kind, changing@, value@, x) by {
                    if sole_holder(self@, kind, changing@, value@, x) {
                        if x == u[fk] {
                            assert(!self@[u[sk]]@.contains(value@));
                        } else {
                            assert(!self@[u[fk]]@.contains(value@));
                        }
                    }
                }
            }
            None
        } else {
            proof {
                assert forall|w: int|
                    is_cell(w) && in_unit(kind, changing@, w) && w != changing@ && (first matches Some(
                        f,
                    ) ==> w != f@) implies !self@[w]@.contains(value@) by {
                    let k1 = index_in_unit(kind, w);
                    assert(u[k1] == w);
                }
                if first is None {
                    assert forall|x: int| !sole_holder(self@, kind, changing@, value@, x) by {
                        if sole_holder(self@, kind, changing@, value@, x) {
                            assert(!self@[x]@.contains(value@));
                        }
                    }
                }
            }
            first
        }
    }

    /// Called for each digit `value` that `changing` has just lost: in each unit of
    /// `changing`, the one cell left that admits `value`, if there is one, must take
    /// it; such pairs are appended to `out`.
    fn search_uniqueness_around(
        &self,
        value: &Value,
        changing: &Place,
        out: &mut Vec<(Value, Place)>,
    )
        requires
            self.wf(),
            !self@[changing@]@.contains(value@),
        ensures
            final(out)@.len() == old(out)@.len() + hidden_singles(self@, changing@, value@).len(),
            hidden_singles(self@, changing@, value@).len() <= 3,
            forall|k: int| 0 <= k < old(out)@.len() ==> #[trigger] final(out)@[k] == old(out)@[k],
            forall|k: int|
                0 <= k < hidden_singles(self@, changing@, value@).len() ==> #[trigger] final(out)@[old(out)@.len() + k].1@ == hidden_singles(self@, changing@, value@)[k] && final(out)@[old(out)@.len() + k].0 == *value,
            forall|sol: Seq<int>|
                is_solution(sol) && admits(self@, sol) && forced(sol, old(out)@) ==> forced(
                    sol,
                    final(out)@,
                ),
    {
        proof {
            use_type_invariant(value);
            use_type_invariant(changing);
        }
        let deps = changing.dependencies();
        let mut g: usize = 0;
        while g < 3
            invariant
                g <= 3,
                self.wf(),
                deps@ == *changing,
                1 <= value@ <= 9,
                is_cell(changing@),
                !self@[changing@]@.contains(value@),
                out@.len() == old(out)@.len() + singles_upto(self@, changing@, value@, g as int).len(),
                singles_upto(self@, changing@, value@, g as int).len() <= g,
                forall|k: int| 0 <= k < old(out)@.len() ==> #[trigger] out@[k] == old(out)@[k],
                forall|k: int|
                    0 <= k < singles_upto(self@, changing@, value@, g as int).len() ==> #[trigger] out@[old(out)@.len() + k].1@ == singles_upto(self@, changing@, value@, g as int)[k] && out@[old(out)@.len() + k].0 == *value,
                forall|sol: Seq<int>|
                    is_solution(sol) && admits(self@, sol) && forced(sol, old(out)@) ==> forced(
                        sol,
                        out@,
                    ),
            decreases 3 - g,
        {
            let kind = if g == 0 {
                BlockType::XLine
            } else if g == 1 {
                BlockType::YLine
            } else {
                BlockType::Square
            };
            let block = deps.block(kind);
            let ghost before = out@;
            let ghost prev = singles_upto(self@, changing@, value@, g as int);
            let ghost nxt = singles_upto(self@, changing@, value@, g as int + 1);
            proof {
                assert(nxt =~= prev + unit_single(self@, kind, changing@, value@));
            }
            let found = self.unique_holder(&block, value, changing);
            if let Some(u) = found {
                out.push((*value, u));
                proof {
                    lemma_sole_holder_unique(self@, kind, changing@, value@, u@);
                    assert forall|k: int| 0 <= k < nxt.len() implies #[trigger] out@[old(out)@.len() + k].1@ == nxt[k] && out@[old(out)@.len() + k].0 == *value by {
                        if k < prev.len() {
                            assert(out@[old(out)@.len() + k] == before[old(out)@.len() + k]);
                        } else {
                            assert(k == prev.len());
                            assert(before.len() == old(out)@.len() + prev.len());
                            assert(out@[old(out)@.len() + k] == (*value, u));
                            assert(nxt[k] == unit_single(self@, kind, changing@, value@)[0]);
                        }
                    }
                    assert forall|k: int| 0 <= k < old(out)@.len() implies #[trigger] out@[k] == old(out)@[k] by {
                        assert(out@[k] == before[k]);
                    }
                    assert forall|sol: Seq<int>|
                        is_solution(sol) && admits(self@, sol) && forced(
                            sol,
                            old(out)@,
                        ) implies forced(sol, out@) by {
                        lemma_hidden_single(self@, sol, kind, changing@, u@, value@);
                        assert(forced(sol, before));
                        assert forall|k: int| 0 <= k < out@.len() implies sol[#[trigger] out@[k].1@]
                            == out@[k].0@ by {
                            if k < before.len() {
                                assert(out@[k] == before[k]);
                            }
                        }
                    }
                }
            } else {
                proof {
                    assert(!exists|x: int| sole_holder(self@, kind, changing@, value@, x));
                    assert(nxt =~= prev);
                }
            }
            g = g + 1;
        }
        proof {
            assert(hidden_singles(self@, changing@, value@) == singles_upto(
                self@,
                changing@,
                value@,
                3,
            ));
        }
    }

    /// Narrows the cell `place` by `entropy` and takes the first step of propagation:
    /// for each digit that the cell lost, the hidden singles of its units; and where the
    /// cell is left with one digit, that digit is ruled out of its row, column and box,
    /// with the hidden singles and the new single-digit cells that this brings. Returns
    /// the pairs (digit, cell) that are now forced.
    #[verifier::rlimit(100)]
    fn inner_insert(
        &mut self,
        entropy: Entropy,
        place: Place,
        pending: Ghost<Set<int>>,
        spending: Ghost<Set<(int, int)>>,
    ) -> (r: Result<Vec<(Value, Place)>, RuleViolationError>)
        requires
            old(self).wf(),
            entropy.wf(),
        ensures
            final(self).wf(),
            narrows(old(self)@, final(self)@),
            r is Ok ==> final(self)@[place@]@.subset_of(entropy@),
            r matches Ok(next) ==> next@.len() + 4 * total(final(self)@) <= 4 * total(old(self)@),
            r matches Err(e) ==> e.place == place,
            old(self)@[place@]@.intersect(entropy@) =~= Set::<int>::empty() ==> r is Err,
            forall|sol: Seq<int>|
                is_solution(sol) && admits(old(self)@, sol) && entropy@.contains(sol[place@]) ==> (
                r matches Ok(next) && admits(final(self)@, sol) && forced(sol, next@)),
            settled_except(old(self)@, pending@.insert(place@)) ==> (r matches Ok(next)
                ==> settled_except(final(self)@, pending@ + places_in(next@))),
            r matches Ok(next) ==> matches_pairs(next@, step_pairs(old(self)@, place@, entropy)),
            singles_closed_except(
                old(self)@,
                spending@ + Set::new(|x: (int, int)| x.0 == place@ && entropy@ == set![x.1]),
            ) ==> (r matches Ok(next) ==> singles_closed_except(
                final(self)@,
                spending@ + value_pairs(next@),
            )),
            ({
                let x = old(self)@[place@]@.intersect(entropy@);
                &&& x.finite()
                &&& (r is Err <==> (x =~= Set::<int>::empty() || (x.len() == 1 && exists|q: int|
                    is_cell(q) && depends(place@, q) && old(self)@[q]@ == x)))
                &&& (x =~= Set::<int>::empty() ==> final(self)@ == old(self)@)
                &&& (r is Ok ==> final(self)@[place@]@ == x)
                &&& (r is Ok && x.len() == 1 ==> forall|q: int|
                    is_cell(q) && depends(place@, q) ==> final(self)@[q]@ == old(self)@[q]@.difference(
                        x,
                    ))
                &&& (r is Ok ==> forall|j: int|
                    is_cell(j) && j != place@ && !(x.len() == 1 && depends(place@, j))
                        ==> final(self)@[j] == old(self)@[j])
            }),
    {
        proof {
            use_type_invariant(&place);
            old(self)@[place@].lemma_wf();
            entropy.lemma_wf();
        }
        let i: usize = *place.raw();
        let mut cell = self.cells[i];
        let mut disabled = match cell.superimpose(entropy) {
            Ok(d) => d,
            Err(conflict) => {
                proof {
                    assert forall|sol: Seq<int>|
                        is_solution(sol) && admits(old(self)@, sol) && entropy@.contains(
                            sol[place@],
                        ) implies false by {
                        assert(old(self)@[place@]@.contains(sol[place@]));
                        assert(old(self)@[place@]@.intersect(entropy@).contains(sol[place@]));
                    }
                }
                return Err(RuleViolationError { conflict, place });
            },
        };
        let ghost start = self@;
        self.cells.set(i, cell);
        proof {
            lemma_total_update(start, i as int, cell);
            start[i as int].lemma_wf();
        }
        let mut remaining: Vec<(Value, Place)> = Vec::new();
        let ghost c1 = self@;
        let ghost removed = start[i as int]@.difference(entropy@);
        let ghost mut b: int = 0;
        proof {
            assert(c1 == start.update(i as int, start[i as int].meet(entropy)));
            assert forall|d: int| disabled@.contains(d) <==> removed.contains(d) && d > b by {
                if removed.contains(d) {
                    assert(start[i as int]@.contains(d));
                }
            }
            assert(matches_pairs(remaining@, first_pass(c1, i as int, removed, b)));
        }
        let ghost q0 = Set::new(|x: (int, int)| x.0 == place@ && entropy@ == set![x.1]);
        let ghost hc = singles_closed_except(start, spending@ + q0);
        proof {
            if hc {
                assert(closed_owing(start, spending@ + q0, remaining@, i as int, Set::empty()));
                lemma_loss_owes(start, self@, spending@ + q0, remaining@, i as int, disabled@);
                assert forall|kind: BlockType, i1: int, d: int, u: int|
                    is_cell(i1) && #[trigger] only_place(self@, kind, i1, d, u) && self@[u]@ != set![
                        d,
                    ] implies spending@.contains((u, d)) || value_pairs(remaining@).contains((u, d))
                    || (in_unit(kind, i1, i as int) && disabled@.contains(d)) by {
                    if q0.contains((u, d)) && !spending@.contains((u, d)) {
                        assert(u == i);
                        assert(self@[u]@ =~= set![d]);
                    }
                }
            }
        }
        let n = disabled.len();
        let mut t: u32 = 0;
        while t < n
            invariant
                self.wf(),
                start.len() == 81,
                i < 81,
                self@ == start.update(i as int, cell),
                self@[i as int] == cell,
                i == place@,
                cell.wf(),
                disabled.wf(),
                t <= n,
                disabled@.len() == n - t,
                forall|d: int| disabled@.contains(d) ==> !cell@.contains(d),
                remaining@.len() <= 3 * t,
                forall|sol: Seq<int>|
                    is_solution(sol) && admits(self@, sol) ==> forced(sol, remaining@),
                hc ==> closed_owing(self@, spending@, remaining@, i as int, disabled@),
                self@ == c1,
                0 <= b <= 9,
                forall|d: int| disabled@.contains(d) <==> removed.contains(d) && d > b,
                matches_pairs(remaining@, first_pass(c1, i as int, removed, b)),
            decreases n - t,
        {
            let ghost before_d = disabled@;
            match disabled.next() {
                Some(v) => {
                    assert(before_d.contains(v@));
                    assert(!self@[i as int]@.contains(v@));
                    let ghost before_rem = remaining@;
                    self.search_uniqueness_around(&v, &place, &mut remaining);
                    proof {
                        assert(removed.contains(v@) && v@ > b);
                        assert forall|d: int| b < d <= v@ - 1 implies !removed.contains(d) by {
                            if removed.contains(d) {
                                assert(before_d.contains(d));
                            }
                        }
                        lemma_first_pass_skip(c1, i as int, removed, b, v@ - 1);
                        lemma_matches_scan(
                            before_rem,
                            remaining@,
                            first_pass(c1, i as int, removed, b),
                            self@,
                            i as int,
                            v,
                        );
                        assert(first_pass(c1, i as int, removed, v@) == first_pass(
                            c1,
                            i as int,
                            removed,
                            b,
                        ) + singles_pairs(c1, i as int, v@));
                        b = v@;
                        assert forall|d: int| disabled@.contains(d) <==> removed.contains(d) && d > b by {
                            assert(disabled@ =~= before_d.remove(v@));
                        }
                        if hc {
                            lemma_scan_pays(
                                self@,
                                spending@,
                                before_rem,
                                remaining@,
                                i as int,
                                v,
                                before_d,
                            );
                            assert(disabled@ =~= before_d.remove(v@));
                        }
                    }
                },
                None => {},
            }
            t = t + 1;
        }
        let ghost after_scan = self@;
        proof {
            disabled.lemma_finite();
            disabled@.lemma_len0_is_empty();
            assert(disabled@ =~= Set::<int>::empty());
            assert forall|d: int| b < d <= 9 implies !removed.contains(d) by {
                assert(!disabled@.contains(d));
            }
            lemma_first_pass_skip(c1, i as int, removed, b, 9);
            assert(matches_pairs(remaining@, first_pass(c1, i as int, removed, 9)));
        }
        proof {
            assert forall|sol: Seq<int>|
                is_solution(sol) && admits(start, sol) && entropy@.contains(
                    sol[i as int],
                ) implies admits(self@, sol) by {
                assert forall|c: int| is_cell(c) implies #[trigger] self@[c]@.contains(sol[c]) by {
                    assert(start[c]@.contains(sol[c]));
                }
            }
            assert(narrows(start, self@)) by {
                assert forall|c: int| is_cell(c) implies #[trigger] self@[c]@.subset_of(
                    start[c]@,
                ) by {
                    if c != i {
                        assert(self@[c] == start[c]);
                    }
                }
            }
        }
        match cell.check_convergence() {
            None => {
                proof {
                    assert forall|i2: int, j: int, d: int|
                        settled_except(start, pending@.insert(place@)) && is_cell(i2) && is_cell(j)
                            && #[trigger] depends(i2, j) && self@[i2]@.len() == 1
                            && #[trigger] self@[i2]@.contains(d) && #[trigger] self@[j]@.contains(
                            d,
                        ) implies (pending@ + places_in(remaining@)).contains(i2) by {
                        assert(self@[i2] == start[i2]);
                        assert(start[j]@.contains(d));
                    }
                    assert(self@[i as int]@ =~= old(self)@[place@]@.intersect(entropy@));
                }
            },
            Some(value) => {
                let deps = place.dependencies().places();
                proof {
                    lemma_dependency_cells(i as int);
                    use_type_invariant(&value);
                    assert forall|j: int| is_cell(j) implies (#[trigger] self@[j])@ == excluded(
                        c1,
                        i as int,
                        value@,
                        0,
                    )[j]@ by {}
                    assert(first_pass(c1, i as int, removed, 9) + exclusion_pass(
                        c1,
                        i as int,
                        value@,
                        0,
                    ) =~= first_pass(c1, i as int, removed, 9));
                }
                let mut t: usize = 0;
                while t < 24
                    invariant
                        t <= 24,
                        i == place@,
                        is_cell(i as int),
                        1 <= value@ <= 9,
                        deps@.len() == 24,
                        forall|t1: int|
                            0 <= t1 < 24 ==> #[trigger] deps@[t1]@ == dependency_cells(i as int)[t1],
                        forall|t1: int|
                            0 <= t1 < 24 ==> is_cell(#[trigger] dependency_cells(i as int)[t1])
                                && depends(i as int, dependency_cells(i as int)[t1]),
                        self.wf(),
                        start == old(self)@,
                        narrows(start, self@),
                        self@[i as int] == cell,
                        cell.wf(),
                        cell@ =~= set![value@],
                        cell@ == start[i as int]@.intersect(entropy@),
                        cell@.subset_of(entropy@),
                        forall|t1: int|
                            0 <= t1 < t ==> !self@[#[trigger] deps@[t1]@]@.contains(value@),
                        remaining@.len() + 4 * total(self@) <= 4 * total(start),
                        forall|sol: Seq<int>|
                            is_solution(sol) && admits(start, sol) && entropy@.contains(
                                sol[i as int],
                            ) ==> admits(self@, sol) && forced(sol, remaining@),
                        forall|c: int|
                            is_cell(c) && c != i && #[trigger] self@[c]@.len() == 1 && start[c]@.len()
                                != 1 ==> places_in(remaining@).contains(c),
                        forall|j: int|
                            is_cell(j) && j != i && listed_before(i as int, t as int, j) ==> (
                            #[trigger] self@[j])@ =~= start[j]@.remove(value@),
                        forall|j: int|
                            is_cell(j) && j != i && !listed_before(i as int, t as int, j) ==> #[trigger] self@[j]
                                == start[j],
                        forall|t1: int|
                            0 <= t1 < t ==> start[#[trigger] dependency_cells(i as int)[t1]]@ != set![
                                value@,
                            ],
                        hc ==> closed_owing(self@, spending@, remaining@, i as int, Set::empty()),
                        c1 == start.update(i as int, cell),
                        c1.len() == 81,
                        forall|j: int|
                            is_cell(j) ==> (#[trigger] self@[j])@ == excluded(
                                c1,
                                i as int,
                                value@,
                                t as int,
                            )[j]@,
                        matches_pairs(
                            remaining@,
                            first_pass(c1, i as int, removed, 9) + exclusion_pass(
                                c1,
                                i as int,
                                value@,
                                t as int,
                            ),
                        ),
                    decreases 24 - t,
                {
                    let q = deps[t];
                    let qi: usize = *q.raw();
                    let mut e = self.cells[qi];
                    let ghost before = self@;
                    let ghost before_rem = remaining@;
                    proof {
                        assert(depends(i as int, qi as int));
                        before[qi as int].lemma_wf();
                    }
                    match e.disable(&value) {
                        Err(conflict) => {
                            proof {
                                assert forall|sol: Seq<int>|
                                    is_solution(sol) && admits(start, sol) && entropy@.contains(
                                        sol[i as int],
                                    ) implies false by {
                                    assert(admits(before, sol));
                                    assert(before[qi as int]@.contains(sol[qi as int]));
                                    assert(before[i as int]@.contains(sol[i as int]));
                                    crate::entropy::lemma_singleton(
                                        before[qi as int]@,
                                        value@,
                                    );
                                }
                                crate::entropy::lemma_singleton(before[qi as int]@, value@);
                                if listed_before(i as int, t as int, qi as int) {
                                    assert(!before[qi as int]@.contains(value@));
                                }
                                assert(before[qi as int] == start[qi as int]);
                                let x = old(self)@[place@]@.intersect(entropy@);
                                assert(x =~= cell@);
                                assert(start[qi as int]@ == x);
                                assert(x.len() == 1);
                            }
                            return Err(RuleViolationError { conflict, place });
                        },
                        Ok(changed) => {
                            if changed {
                                self.cells.set(qi, e);
                                proof {
                                    assert(self@[qi as int]@ == before[qi as int]@.remove(value@));
                                    lemma_excluded_step(
                                        c1,
                                        i as int,
                                        value@,
                                        t as int,
                                        before,
                                        self@,
                                        qi as int,
                                    );
                                    lemma_total_update(before, qi as int, e);
                                    assert(self@ == before.update(qi as int, e));
                                }
                                proof {
                                    if hc {
                                        lemma_owing_extend(
                                            before,
                                            spending@,
                                            before_rem,
                                            before_rem,
                                            i as int,
                                            qi as int,
                                        );
                                        assert(self@[qi as int]@ =~= before[qi as int]@.remove(
                                            value@,
                                        ));
                                        lemma_loss_owes(
                                            before,
                                            self@,
                                            spending@,
                                            before_rem,
                                            qi as int,
                                            set![value@],
                                        );
                                    }
                                }
                                self.search_uniqueness_around(&value, &q, &mut remaining);
                                let ghost mid_rem = remaining@;
                                proof {
                                    if hc {
                                        lemma_scan_pays(
                                            self@,
                                            spending@,
                                            before_rem,
                                            mid_rem,
                                            qi as int,
                                            value,
                                            set![value@],
                                        );
                                        assert(set![value@].remove(value@) =~= Set::<int>::empty());
                                    }
                                }
                                let conv = e.check_convergence();
                                if let Some(w) = conv {
                                    remaining.push((w, q));
                                    proof {
                                        assert(remaining@[remaining@.len() - 1].1@ == qi);
                                    }
                                }
                                proof {
                                    if hc {
                                        assert forall|k: int| 0 <= k < mid_rem.len() implies #[trigger] remaining@[k]
                                            == mid_rem[k] by {}
                                        lemma_owing_extend(
                                            self@,
                                            spending@,
                                            mid_rem,
                                            remaining@,
                                            qi as int,
                                            i as int,
                                        );
                                    }
                                }
                                proof {
                                    assert forall|sol: Seq<int>|
                                        is_solution(sol) && admits(start, sol) && entropy@.contains(
                                            sol[i as int],
                                        ) implies admits(self@, sol) && forced(
                                        sol,
                                        remaining@,
                                    ) by {
                                        assert(admits(before, sol));
                                        assert(before[i as int]@.contains(sol[i as int]));
                                        assert(sol[i as int] == value@);
                                        assert(before[qi as int]@.contains(sol[qi as int]));
                                        assert forall|c: int| is_cell(c) implies #[trigger] self@[
                                            c
                                        ]@.contains(sol[c]) by {
                                            assert(before[c]@.contains(sol[c]));
                                        }
                                        assert(forced(sol, before_rem));
                                        assert(forced(sol, mid_rem));
                                        assert forall|k: int|
                                            0 <= k < remaining@.len() implies sol[
                                            #[trigger] remaining@[k].1@] == remaining@[k].0@ by {
                                            if k < mid_rem.len() {
                                                assert(remaining@[k] == mid_rem[k]);
                                            } else {
                                                assert(self@[qi as int]@.contains(sol[qi as int]));
                                            }
                                        }
                                    }
                                    assert forall|c: int|
                                        is_cell(c) && c != i && #[trigger] self@[c]@.len() == 1
                                            && start[c]@.len() != 1 implies places_in(
                                        remaining@,
                                    ).contains(c) by {
                                        if c == qi {
                                            assert(remaining@[remaining@.len() - 1].1@ == c);
                                        } else {
                                            assert(self@[c] == before[c]);
                                            assert(places_in(before_rem).contains(c));
                                            let k = choose|k: int|
                                                0 <= k < before_rem.len() && #[trigger] before_rem[k].1@
                                                    == c;
                                            assert(remaining@[k] == before_rem[k]);
                                        }
                                    }
                                    assert(narrows(start, self@)) by {
                                        assert forall|c: int| is_cell(c) implies #[trigger] self@[
                                            c
                                        ]@.subset_of(start[c]@) by {
                                            assert(before[c]@.subset_of(start[c]@));
                                        }
                                    }
                                }
                                proof {
                                    c1[qi as int].lemma_without_meet(c1[qi as int], value@);
                                    assert(before[qi as int]@ == excluded(
                                        c1,
                                        i as int,
                                        value@,
                                        t as int,
                                    )[qi as int]@);
                                    lemma_exclusion_pairs(
                                        c1,
                                        i as int,
                                        value,
                                        t as int,
                                        q,
                                        self@,
                                        before[qi as int]@,
                                        before_rem,
                                        mid_rem,
                                        remaining@,
                                        conv,
                                        e@,
                                        removed,
                                    );
                                }
                            } else {
                                proof {
                                    assert(!before[qi as int]@.contains(value@));
                                    assert(before[qi as int]@.remove(value@) =~= before[qi as int]@);
                                    lemma_excluded_step(
                                        c1,
                                        i as int,
                                        value@,
                                        t as int,
                                        before,
                                        self@,
                                        qi as int,
                                    );
                                    c1[qi as int].lemma_without_meet(c1[qi as int], value@);
                                    if !listed_before(i as int, t as int, qi as int) {
                                        assert(before[qi as int]@ == c1[qi as int]@);
                                    }
                                    assert(exclusion_pass(c1, i as int, value@, t as int + 1)
                                        =~= exclusion_pass(c1, i as int, value@, t as int));
                                }
                            }
                        },
                    }
                    t = t + 1;
                }
                proof {
                    assert forall|i2: int, j: int, d: int|
                        settled_except(start, pending@.insert(place@)) && is_cell(i2) && is_cell(j)
                            && #[trigger] depends(i2, j) && self@[i2]@.len() == 1
                            && #[trigger] self@[i2]@.contains(d) && #[trigger] self@[j]@.contains(
                            d,
                        ) implies (pending@ + places_in(remaining@)).contains(i2) by {
                        if i2 == i {
                            assert(d == value@);
                            let t1 = choose|t1: int|
                                0 <= t1 < 24 && dependency_cells(i as int)[t1] == j;
                            assert(deps@[t1]@ == j);
                        } else if start[i2]@.len() == 1 {
                            start[i2].lemma_wf();
                            assert(self@[i2]@.subset_of(start[i2]@));
                            lemma_subset_single(self@[i2]@, start[i2]@, d);
                            assert(self@[j]@.subset_of(start[j]@));
                            assert(start[j]@.contains(d));
                        }
                    }
                }
            },
        }
        proof {
            assert(narrows(old(self)@, self@)) by {
                assert forall|c: int| is_cell(c) implies #[trigger] self@[c]@.subset_of(
                    old(self)@[c]@,
                ) by {
                    assert(self@[c]@.subset_of(start[c]@));
                }
            }
        }
        proof {
            if hc {
                assert forall|kind: BlockType, i1: int, d: int, u: int|
                    is_cell(i1) && #[trigger] only_place(self@, kind, i1, d, u) && self@[u]@ != set![
                        d,
                    ] implies (spending@ + value_pairs(remaining@)).contains((u, d)) by {
                    assert(!Set::<int>::empty().contains(d));
                }
            }
        }
        Ok(remaining)
    }

    /// Narrows the cell `place` to `into_entropy` (a single digit is the one-digit set) and
    /// propagates the consequences to a fixpoint, batch after batch of forced pairs. On
    /// an error the grid is left part-way and is not to be used further.
    pub fn insert(&mut self, place: Place, into_entropy: Entropy) -> (r: Result<
        (),
        RuleViolationError,
    >)
        requires
            old(self).wf(),
            into_entropy.wf(),
        ensures
            final(self).wf(),
            narrows(old(self)@, final(self)@),
            r is Ok ==> final(self)@[place@]@.subset_of(into_entropy@),
            r is Ok && is_consistent(old(self)@) ==> is_consistent(final(self)@),
            r is Ok && is_singles_closed(old(self)@) ==> is_singles_closed(final(self)@),
            forall|sol: Seq<int>|
                is_solution(sol) && admits(old(self)@, sol) && into_entropy@.contains(sol[place@])
                    ==> r is Ok && admits(final(self)@, sol),
            old(self)@[place@]@.intersect(into_entropy@) =~= Set::<int>::empty() ==> (r matches Err(
                e,
            ) && e.place == place && final(self)@ == old(self)@),
    {
        let mut remaining: Vec<(Entropy, Place)> = Vec::new();
        remaining.push((into_entropy, place));
        let ghost mut first = true;
        proof {
            use_type_invariant(&place);
            lemma_total_nonneg(self@);
            if is_singles_closed(old(self)@) {
                lemma_singles_mono(self@, Set::empty(), single_pairs(remaining@));
            }
        }
        while remaining.len() > 0
            invariant
                self.wf(),
                is_cell(place@),
                narrows(old(self)@, self@),
                forall|k: int| 0 <= k < remaining@.len() ==> (#[trigger] remaining@[k]).0.wf(),
                first ==> self@ == old(self)@ && remaining@ == seq![(into_entropy, place)],
                !first ==> self@[place@]@.subset_of(into_entropy@),
                !first ==> !(old(self)@[place@]@.intersect(into_entropy@) =~= Set::<int>::empty()),
                forall|sol: Seq<int>|
                    is_solution(sol) && admits(old(self)@, sol) && into_entropy@.contains(
                        sol[place@],
                    ) ==> admits(self@, sol) && forced_sets(sol, remaining@),
                is_consistent(old(self)@) ==> settled_except(self@, places_in(remaining@)),
                is_singles_closed(old(self)@) ==> singles_closed_except(
                    self@,
                    single_pairs(remaining@),
                ),
                total(self@) >= 0,
            decreases 4 * total(self@) + remaining@.len(),
        {
            let batch = remaining;
            remaining = Vec::new();
            let n = batch.len();
            let ghost mstart = 4 * total(self@) + n;
            proof {
                assert(batch@.subrange(0, n as int) =~= batch@);
                if is_singles_closed(old(self)@) {
                    lemma_singles_mono(
                        self@,
                        single_pairs(batch@),
                        single_pairs(batch@.subrange(0, n as int)) + single_pairs(remaining@),
                    );
                }
                if is_consistent(old(self)@) {
                    lemma_settled_mono(
                        self@,
                        places_in(batch@),
                        places_in(batch@.subrange(0, n as int)) + places_in(remaining@),
                    );
                }
            }
            let mut k: usize = 0;
            while k < n
                invariant
                    k <= n,
                    n == batch@.len(),
                    n > 0,
                    is_cell(place@),
                    self.wf(),
                    narrows(old(self)@, self@),
                    forall|k1: int| 0 <= k1 < n ==> (#[trigger] batch@[k1]).0.wf(),
                    forall|k1: int|
                        0 <= k1 < remaining@.len() ==> (#[trigger] remaining@[k1]).0.wf(),
                    first ==> k == 0 && self@ == old(self)@ && batch@ == seq![(into_entropy, place)]
                        && remaining@.len() == 0,
                    !first ==> self@[place@]@.subset_of(into_entropy@),
                    !first ==> !(old(self)@[place@]@.intersect(into_entropy@) =~= Set::<
                        int,
                    >::empty()),
                    forall|sol: Seq<int>|
                        is_solution(sol) && admits(old(self)@, sol) && into_entropy@.contains(
                            sol[place@],
                        ) ==> admits(self@, sol) && forced_sets(
                            sol,
                            batch@.subrange(k as int, n as int),
                        ) && forced_sets(sol, remaining@),
                    is_consistent(old(self)@) ==> settled_except(
                        self@,
                        places_in(batch@.subrange(k as int, n as int)) + places_in(remaining@),
                    ),
                    is_singles_closed(old(self)@) ==> singles_closed_except(
                        self@,
                        single_pairs(batch@.subrange(k as int, n as int)) + single_pairs(remaining@),
                    ),
                    4 * total(self@) + remaining@.len() + n <= mstart,
                decreases n - k,
            {
                let (e, p) = batch[k];
                let ghost before = self@;
                let ghost rem0 = remaining@;
                let ghost tail = batch@.subrange(k as int + 1, n as int);
                let ghost rest = places_in(tail) + places_in(rem0);
                let ghost srest = single_pairs(tail) + single_pairs(rem0);
                proof {
                    assert(batch@[k as int] == (e, p));
                    if is_consistent(old(self)@) {
                        assert forall|c: int|
                            (places_in(batch@.subrange(k as int, n as int)) + places_in(
                                rem0,
                            )).contains(c) implies rest.insert(p@).contains(c) by {
                            if places_in(batch@.subrange(k as int, n as int)).contains(c) {
                                let k1 = choose|k1: int|
                                    0 <= k1 < n - k && #[trigger] batch@.subrange(
                                        k as int,
                                        n as int,
                                    )[k1].1@ == c;
                                if k1 > 0 {
                                    assert(tail[k1 - 1] == batch@.subrange(k as int, n as int)[k1]);
                                }
                            }
                        }
                        lemma_settled_mono(
                            self@,
                            places_in(batch@.subrange(k as int, n as int)) + places_in(rem0),
                            rest.insert(p@),
                        );
                    }
                }
                proof {
                    if is_singles_closed(old(self)@) {
                        let q0 = Set::new(|x: (int, int)| x.0 == p@ && e@ == set![x.1]);
                        assert forall|x: (int, int)|
                            (single_pairs(batch@.subrange(k as int, n as int)) + single_pairs(
                                rem0,
                            )).contains(x) implies (srest + q0).contains(x) by {
                            if single_pairs(batch@.subrange(k as int, n as int)).contains(x) {
                                let k1 = choose|k1: int|
                                    0 <= k1 < n - k && #[trigger] batch@.subrange(
                                        k as int,
                                        n as int,
                                    )[k1].1@ == x.0 && batch@.subrange(k as int, n as int)[k1].0@
                                        == set![x.1];
                                if k1 > 0 {
                                    assert(tail[k1 - 1] == batch@.subrange(k as int, n as int)[k1]);
                                } else {
                                    assert(batch@.subrange(k as int, n as int)[0] == (e, p));
                                }
                            }
                        }
                        lemma_singles_mono(
                            self@,
                            single_pairs(batch@.subrange(k as int, n as int)) + single_pairs(rem0),
                            srest + q0,
                        );
                    }
                }
                match self.inner_insert(e, p, Ghost(rest), Ghost(srest)) {
                    Err(err) => {
                        proof {
                            assert forall|sol: Seq<int>|
                                is_solution(sol) && admits(old(self)@, sol) && into_entropy@.contains(
                                    sol[place@],
                                ) implies false by {
                                assert(forced_sets(sol, batch@.subrange(k as int, n as int)));
                                assert(batch@.subrange(k as int, n as int)[0] == (e, p));
                            }
                            assert(narrows(old(self)@, self@)) by {
                                assert forall|c: int| is_cell(c) implies #[trigger] self@[
                                    c
                                ]@.subset_of(old(self)@[c]@) by {
                                    assert(self@[c]@.subset_of(before[c]@));
                                    assert(before[c]@.subset_of(old(self)@[c]@));
                                }
                            }
                        }
                        return Err(err);
                    },
                    Ok(found) => {
                        let ghost mid = self@;
                        let mut f: usize = 0;
                        while f < found.len()
                            invariant
                                f <= found@.len(),
                                remaining@.len() == rem0.len() + f,
                                forall|k1: int|
                                    0 <= k1 < rem0.len() ==> #[trigger] remaining@[k1] == rem0[k1],
                                forall|k1: int|
                                    0 <= k1 < f ==> #[trigger] remaining@[rem0.len() + k1].1
                                        == found@[k1].1 && remaining@[rem0.len() + k1].0@ =~= set![
                                        found@[k1].0@,
                                    ],
                                forall|k1: int|
                                    0 <= k1 < remaining@.len() ==> (#[trigger] remaining@[k1]).0.wf(),
                            decreases found@.len() - f,
                        {
                            let (v, q) = found[f];
                            let ghost prev = remaining@;
                            let ne = Entropy::new_converged(v);
                            remaining.push((ne, q));
                            proof {
                                assert forall|k1: int| 0 <= k1 < f + 1 implies #[trigger] remaining@[rem0.len()
                                    + k1].1 == found@[k1].1 && remaining@[rem0.len() + k1].0@ =~= set![
                                    found@[k1].0@,
                                ] by {
                                    if k1 < f {
                                        assert(remaining@[rem0.len() + k1] == prev[rem0.len() + k1]);
                                    } else {
                                        assert(remaining@[rem0.len() + k1] == (ne, q));
                                        assert(found@[k1] == (v, q));
                                    }
                                }
                                assert forall|k1: int| 0 <= k1 < rem0.len() implies #[trigger] remaining@[k1]
                                    == rem0[k1] by {
                                    assert(remaining@[k1] == prev[k1]);
                                }
                            }
                            f = f + 1;
                        }
                        proof {
                            lemma_total_nonneg(self@);
                            assert forall|sol: Seq<int>|
                                is_solution(sol) && admits(old(self)@, sol) && into_entropy@.contains(
                                    sol[place@],
                                ) implies admits(self@, sol) && forced_sets(
                                sol,
                                batch@.subrange(k as int + 1, n as int),
                            ) && forced_sets(sol, remaining@) by {
                                assert(forced_sets(sol, batch@.subrange(k as int, n as int)));
                                assert(forced_sets(sol, rem0));
                                assert(admits(before, sol));
                                assert(batch@.subrange(k as int, n as int)[0] == (e, p));
                                assert(forced(sol, found@));
                                assert forall|k1: int|
                                    0 <= k1 < n - k - 1 implies (#[trigger] batch@.subrange(
                                    k as int + 1,
                                    n as int,
                                )[k1]).0@.contains(
                                    sol[batch@.subrange(k as int + 1, n as int)[k1].1@],
                                ) by {
                                    assert(batch@.subrange(k as int + 1, n as int)[k1]
                                        == batch@.subrange(k as int, n as int)[k1 + 1]);
                                }
                                assert forall|k1: int| 0 <= k1 < remaining@.len() implies (
                                #[trigger] remaining@[k1]).0@.contains(sol[remaining@[k1].1@]) by {
                                    if k1 >= rem0.len() {
                                        let f1 = k1 - rem0.len();
                                        assert(sol[found@[f1].1@] == found@[f1].0@);
                                        assert(remaining@[rem0.len() + f1].1 == found@[f1].1);
                                        assert(remaining@[rem0.len() + f1].0@ =~= set![found@[f1].0@]);
                                        assert(rem0.len() + f1 == k1);
                                    } else {
                                        assert(remaining@[k1] == rem0[k1]);
                                    }
                                }
                            }
                            if is_consistent(old(self)@) {
                                assert forall|c: int|
                                    (rest + places_in(found@)).contains(c) implies (places_in(
                                        batch@.subrange(k as int + 1, n as int),
                                    ) + places_in(remaining@)).contains(c) by {
                                    if places_in(rem0).contains(c) {
                                        let k1 = choose|k1: int|
                                            0 <= k1 < rem0.len() && #[trigger] rem0[k1].1@ == c;
                                        assert(remaining@[k1] == rem0[k1]);
                                    } else if places_in(found@).contains(c) {
                                        let f1 = choose|f1: int|
                                            0 <= f1 < found@.len() && #[trigger] found@[f1].1@ == c;
                                        assert(remaining@[rem0.len() + f1].1 == found@[f1].1);
                                    }
                                }
                                lemma_settled_mono(
                                    self@,
                                    rest + places_in(found@),
                                    places_in(batch@.subrange(k as int + 1, n as int)) + places_in(
                                        remaining@,
                                    ),
                                );
                            }
                            if is_singles_closed(old(self)@) {
                                assert forall|x: (int, int)|
                                    (srest + value_pairs(found@)).contains(x) implies (single_pairs(
                                        batch@.subrange(k as int + 1, n as int),
                                    ) + single_pairs(remaining@)).contains(x) by {
                                    if single_pairs(rem0).contains(x) {
                                        let k1 = choose|k1: int|
                                            0 <= k1 < rem0.len() && #[trigger] rem0[k1].1@ == x.0
                                                && rem0[k1].0@ == set![x.1];
                                        assert(remaining@[k1] == rem0[k1]);
                                    } else if value_pairs(found@).contains(x) {
                                        let f1 = choose|f1: int|
                                            0 <= f1 < found@.len() && #[trigger] found@[f1].1@ == x.0
                                                && found@[f1].0@ == x.1;
                                        assert(remaining@[rem0.len() + f1].1 == found@[f1].1);
                                        assert(remaining@[rem0.len() + f1].0@ =~= set![x.1]);
                                    }
                                }
                                lemma_singles_mono(
                                    self@,
                                    srest + value_pairs(found@),
                                    single_pairs(batch@.subrange(k as int + 1, n as int))
                                        + single_pairs(remaining@),
                                );
                            }
                            if first {
                                assert(before == old(self)@);
                                assert(p == place);
                                assert(e == into_entropy);
                            } else {
                                assert(self@[place@]@.subset_of(before[place@]@));
                            }
                            assert(narrows(old(self)@, self@)) by {
                                assert forall|c: int| is_cell(c) implies #[trigger] self@[
                                    c
                                ]@.subset_of(old(self)@[c]@) by {
                                    assert(self@[c]@.subset_of(before[c]@));
                                    assert(before[c]@.subset_of(old(self)@[c]@));
                                }
                            }
                            first = false;
                        }
                    },
                }
                k = k + 1;
            }
            proof {
                lemma_total_nonneg(self@);
                assert(batch@.subrange(n as int, n as int) =~= Seq::<(Entropy, Place)>::empty());
                if is_singles_closed(old(self)@) {
                    lemma_singles_mono(
                        self@,
                        single_pairs(batch@.subrange(n as int, n as int)) + single_pairs(remaining@),
                        single_pairs(remaining@),
                    );
                }
                if is_consistent(old(self)@) {
                    lemma_settled_mono(
                        self@,
                        places_in(batch@.subrange(n as int, n as int)) + places_in(remaining@),
                        places_in(remaining@),
                    );
                }
            }
        }
        proof {
            if is_consistent(old(self)@) {
                lemma_settled_mono(self@, places_in(remaining@), Set::empty());
            }
            if is_singles_closed(old(self)@) {
                lemma_singles_mono(self@, single_pairs(remaining@), Set::empty());
            }
        }
        Ok(())
    }

    /// The byte form of the grid: the 81 masks in row-major order, four bytes each,
    /// least significant first.
    pub fn to_bytes(&self) -> (r: [u8; BITS_LENGTH])
        requires
            self.wf(),
        ensures
            encodes(self@, r@),
    {
        let mut out: [u8; BITS_LENGTH] = [0u8; BITS_LENGTH];
        let mut i: usize = 0;
        while i < CELLS_COUNT
            invariant
                i <= 81,
                self.wf(),
                out@.len() == 324,
                forall|i1: int, b: int|
                    0 <= i1 < i && 0 <= b < 4 ==> #[trigger] out@[4 * i1 + b] == mask_byte(
                        self@[i1].mask(),
                        b as u32,
                    ),
            decreases 81 - i,
        {
            let m = self.cells[i].bits();
            let ghost prev = out@;
            out[4 * i] = (m & 0xff) as u8;
            out[4 * i + 1] = ((m >> 8) & 0xff) as u8;
            out[4 * i + 2] = ((m >> 16) & 0xff) as u8;
            out[4 * i + 3] = ((m >> 24) & 0xff) as u8;
            proof {
                assert(m >> 0u32 == m) by (bit_vector);
                assert forall|i1: int, b: int|
                    0 <= i1 < i + 1 && 0 <= b < 4 implies #[trigger] out@[4 * i1 + b] == mask_byte(
                    self@[i1].mask(),
                    b as u32,
                ) by {
                    if i1 < i {
                        assert(out@[4 * i1 + b] == prev[4 * i1 + b]);
                    } else if b == 0 {
                        assert(out@[4 * i1 + b] == (m & 0xff) as u8);
                    }
                }
            }
            i = i + 1;
        }
        out
    }

    /// The grid whose byte form is `bytes`; an error where a mask is zero or sets a bit
    /// other than those of the digits 1 to 9.
    pub fn try_from_bytes(bytes: [u8; BITS_LENGTH]) -> (r: Result<EntropyField, ()>)
        ensures
            r is Ok <==> forall|i: int|
                0 <= i < 81 ==> #[trigger] read_mask(bytes@, i) != 0 && crate::entropy::in_range(
                    read_mask(bytes@, i),
                ),
            r matches Ok(g) ==> g.wf() && forall|i: int|
                0 <= i < 81 ==> #[trigger] g@[i].mask() == read_mask(bytes@, i),
    {
        let mut cells: Vec<Entropy> = Vec::new();
        let mut i: usize = 0;
        while i < CELLS_COUNT
            invariant
                i <= 81,
                bytes@.len() == 324,
                cells@.len() == i,
                forall|i1: int|
                    0 <= i1 < i ==> (#[trigger] cells@[i1]).wf() && cells@[i1].mask() == read_mask(
                        bytes@,
                        i1,
                    ) && read_mask(bytes@, i1) != 0 && crate::entropy::in_range(
                        read_mask(bytes@, i1),
                    ),
            decreases 81 - i,
        {
            let m: u32 = (bytes[4 * i] as u32) | ((bytes[4 * i + 1] as u32) << 8) | ((bytes[4 * i
                + 2] as u32) << 16) | ((bytes[4 * i + 3] as u32) << 24);
            proof {
                assert(m == read_mask(bytes@, i as int));
            }
            match Entropy::from_bits(m) {
                Some(e) => {
                    let ghost prev = cells@;
                    cells.push(e);
                    proof {
                        assert forall|i1: int| 0 <= i1 < i + 1 implies (#[trigger] cells@[i1]).wf()
                            && cells@[i1].mask() == read_mask(bytes@, i1) && read_mask(bytes@, i1)
                            != 0 && crate::entropy::in_range(read_mask(bytes@, i1)) by {
                            if i1 < i {
                                assert(cells@[i1] == prev[i1]);
                            }
                        }
                    }
                },
                None => {
                    proof {
                        assert(!(read_mask(bytes@, i as int) != 0 && crate::entropy::in_range(
                            read_mask(bytes@, i as int),
                        )));
                    }
                    return Err(());
                },
            }
            i = i + 1;
        }
        let r = EntropyField { cells };
        proof {
            assert forall|i1: int| 0 <= i1 < 81 implies #[trigger] read_mask(bytes@, i1) != 0
                && crate::entropy::in_range(read_mask(bytes@, i1)) by {
                assert(cells@[i1].wf());
            }
        }
        Ok(r)
    }
}

} // verus!
