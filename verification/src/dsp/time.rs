//! The integer side of the transient solver: whether condensing a circuit is
//! worth it, and the structural bounds the factorisation walks between.

use vstd::prelude::*;
use crate::dsp::netlist::{holds, lemma_contains_after_push, lemma_push_keeps_distinct, Circuit, Part};

pub mod full_trace;

verus! {

/// Whether exact nonlinear condensation of an `n` unknown system onto
/// `boundary` of them should beat the sparse full factorisation: the reduced
/// path's `b³ + 2ib + b²` against 0.85 of the full `n³`. Tiny circuits are
/// deliberately left alone.
pub open spec fn reduction_worthwhile(n: int, boundary: int) -> bool {
    let internal = n - boundary;
    &&& n >= 6
    &&& boundary > 0
    &&& boundary < n
    &&& internal >= 2
    &&& 20 * (boundary * boundary * boundary + 2 * internal * boundary + boundary * boundary) < 17 * (n
        * n * n)
}

/// The value of a 256-bit number held as two 128-bit words, upper first.
pub open spec fn wide(value: (u128, u128)) -> int {
    value.0 * 0x1_0000_0000_0000_0000_0000_0000_0000_0000 + value.1
}

proof fn lemma_halves(x: int, y: int, x1: int, x0: int, y1: int, y0: int)
    requires
        x == x1 * 0x1_0000_0000_0000_0000 + x0,
        y == y1 * 0x1_0000_0000_0000_0000 + y0,
    ensures
        x * y == x1 * y1 * 0x1_0000_0000_0000_0000_0000_0000_0000_0000 + (x0 * y1 + x1 * y0) * 0x1_0000_0000_0000_0000 + x0 * y0,
{
    assert(x * y == x1 * y1 * (0x1_0000_0000_0000_0000 * 0x1_0000_0000_0000_0000) + (x0 * y1 + x1 * y0) * 0x1_0000_0000_0000_0000 + x0 * y0) by (nonlinear_arith)
        requires
            x == x1 * 0x1_0000_0000_0000_0000 + x0,
            y == y1 * 0x1_0000_0000_0000_0000 + y0,
    ;
}

proof fn lemma_half_product(a: int, b: int)
    requires
        0 <= a < 0x1_0000_0000_0000_0000,
        0 <= b < 0x1_0000_0000_0000_0000,
    ensures
        0 <= a * b < 0x1_0000_0000_0000_0000_0000_0000_0000_0000,
{
    assert(0 <= a * b <= (0x1_0000_0000_0000_0000 - 1) * (0x1_0000_0000_0000_0000 - 1)) by (nonlinear_arith)
        requires
            0 <= a < 0x1_0000_0000_0000_0000,
            0 <= b < 0x1_0000_0000_0000_0000,
    ;
}

/// The full product of two `u128`s, as a 256-bit value.
fn mul_wide(x: u128, y: u128) -> (product: (u128, u128))
    ensures
        wide(product) == x * y,
{
    let x1 = x / 0x1_0000_0000_0000_0000;
    let x0 = x % 0x1_0000_0000_0000_0000;
    let y1 = y / 0x1_0000_0000_0000_0000;
    let y0 = y % 0x1_0000_0000_0000_0000;
    proof {
        lemma_half_product(x0 as int, y0 as int);
        lemma_half_product(x0 as int, y1 as int);
        lemma_half_product(x1 as int, y0 as int);
        lemma_half_product(x1 as int, y1 as int);
        lemma_halves(x as int, y as int, x1 as int, x0 as int, y1 as int, y0 as int);
    }
    let low = x0 * y0;
    let cross_a = x0 * y1;
    let cross_b = x1 * y0;
    let high = x1 * y1;
    // The two cross terms, and whether their sum carried past 2^128.
    let (middle, middle_carry): (u128, u128) = if cross_a <= u128::MAX - cross_b {
        (cross_a + cross_b, 0)
    } else {
        (cross_a - (u128::MAX - cross_b) - 1, 1)
    };
    let middle_high = middle / 0x1_0000_0000_0000_0000;
    let shifted = (middle % 0x1_0000_0000_0000_0000) * 0x1_0000_0000_0000_0000;
    let (lower, lower_carry): (u128, u128) = if low <= u128::MAX - shifted {
        (low + shifted, 0)
    } else {
        (low - (u128::MAX - shifted) - 1, 1)
    };
    proof {
        let upper = high + middle_carry * 0x1_0000_0000_0000_0000 + middle_high + lower_carry;
        assert(x * y == upper * 0x1_0000_0000_0000_0000_0000_0000_0000_0000 + lower);
        assert(x * y < 0x1_0000_0000_0000_0000_0000_0000_0000_0000 * 0x1_0000_0000_0000_0000_0000_0000_0000_0000) by (nonlinear_arith)
            requires
                0 <= x < 0x1_0000_0000_0000_0000_0000_0000_0000_0000,
                0 <= y < 0x1_0000_0000_0000_0000_0000_0000_0000_0000,
        ;
        assert(upper < 0x1_0000_0000_0000_0000_0000_0000_0000_0000) by (nonlinear_arith)
            requires
                upper * 0x1_0000_0000_0000_0000_0000_0000_0000_0000 + lower < 0x1_0000_0000_0000_0000_0000_0000_0000_0000 * 0x1_0000_0000_0000_0000_0000_0000_0000_0000,
                0 <= lower,
        ;
    }
    let upper = high + middle_carry * 0x1_0000_0000_0000_0000 + middle_high + lower_carry;
    (upper, lower)
}

/// The sum of two 256-bit values that fits in 256 bits.
fn add_wide(a: (u128, u128), b: (u128, u128)) -> (sum: (u128, u128))
    requires
        wide(a) + wide(b) < 0x1_0000_0000_0000_0000_0000_0000_0000_0000 * 0x1_0000_0000_0000_0000_0000_0000_0000_0000,
    ensures
        wide(sum) == wide(a) + wide(b),
{
    let (lower, carry): (u128, u128) = if a.1 <= u128::MAX - b.1 {
        (a.1 + b.1, 0)
    } else {
        (a.1 - (u128::MAX - b.1) - 1, 1)
    };
    proof {
        let upper = a.0 + b.0 + carry;
        assert(wide(a) + wide(b) == upper * 0x1_0000_0000_0000_0000_0000_0000_0000_0000 + lower);
        assert(upper < 0x1_0000_0000_0000_0000_0000_0000_0000_0000) by (nonlinear_arith)
            requires
                upper * 0x1_0000_0000_0000_0000_0000_0000_0000_0000 + lower < 0x1_0000_0000_0000_0000_0000_0000_0000_0000 * 0x1_0000_0000_0000_0000_0000_0000_0000_0000,
                0 <= lower,
        ;
    }
    (a.0 + b.0 + carry, lower)
}

/// Whether one 256-bit value is below another.
fn less_wide(a: (u128, u128), b: (u128, u128)) -> (less: bool)
    ensures
        less == (wide(a) < wide(b)),
{
    a.0 < b.0 || (a.0 == b.0 && a.1 < b.1)
}

/// Whether exact nonlinear condensation is likely to beat the already sparse
/// full LU. This is only a performance gate; either path solves the same
/// equations. Both sides are reckoned exactly, in 256 bits, for any size.
pub fn nonlinear_reduction_worthwhile(n: usize, boundary: usize) -> (worth: bool)
    ensures
        worth == reduction_worthwhile(n as int, boundary as int),
{
    if n < 6 || boundary == 0 || boundary >= n {
        return false;
    }
    let internal = n - boundary;
    if internal < 2 {
        return false;
    }
    assert(usize::MAX < 0x1_0000_0000_0000_0000);
    let n = n as u128;
    let b = boundary as u128;
    let i = internal as u128;
    proof {
        lemma_half_product(n as int, n as int);
        lemma_half_product(b as int, b as int);
    }
    let square = b * b;
    // 20b³, 40ib and 20b² against 17n³.
    let cube = mul_wide(square, 20 * b);
    let cross = mul_wide(i, 40 * b);
    let squared = mul_wide(square, 20);
    let full = mul_wide(n * n, 17 * n);
    proof {
        assert(square * (20 * b) <= 20 * (0x1_0000_0000_0000_0000 * 0x1_0000_0000_0000_0000 * 0x1_0000_0000_0000_0000) && i * (40 * b) <= 40 * (0x1_0000_0000_0000_0000 * 0x1_0000_0000_0000_0000)
            && square * 20 <= 20 * (0x1_0000_0000_0000_0000 * 0x1_0000_0000_0000_0000)) by (nonlinear_arith)
            requires
                square == b * b,
                0 <= b < 0x1_0000_0000_0000_0000,
                0 <= i < 0x1_0000_0000_0000_0000,
        ;
        assert(20 * (0x1_0000_0000_0000_0000 * 0x1_0000_0000_0000_0000 * 0x1_0000_0000_0000_0000) + 40 * (0x1_0000_0000_0000_0000 * 0x1_0000_0000_0000_0000) + 20 * (0x1_0000_0000_0000_0000 * 0x1_0000_0000_0000_0000) < 0x1_0000_0000_0000_0000_0000_0000_0000_0000 * 0x1_0000_0000_0000_0000_0000_0000_0000_0000);
    }
    let reduced = add_wide(add_wide(cube, cross), squared);
    proof {
        assert(wide(reduced) == 20 * (b * b * b + 2 * i * b + b * b)) by (nonlinear_arith)
            requires
                wide(reduced) == square * (20 * b) + i * (40 * b) + square * 20,
                square == b * b,
        ;
        assert(wide(full) == 17 * (n * n * n)) by (nonlinear_arith)
            requires
                wide(full) == (n * n) * (17 * n),
        ;
    }
    less_wide(reduced, full)
}

/// `reach` is how far right row `row` of the `n`-wide pattern goes: its last
/// marked column at or past the diagonal, or the diagonal itself.
pub open spec fn is_row_reach(pattern: Seq<bool>, n: int, row: int, reach: int) -> bool {
    &&& row <= reach < n
    &&& (reach == row || pattern[row * n + reach])
    &&& forall|k: int| reach < k < n ==> !#[trigger] pattern[row * n + k]
}

/// `depth` is how far down column `col` goes: its last marked row at or below
/// the diagonal, or the diagonal itself.
pub open spec fn is_column_depth(pattern: Seq<bool>, n: int, col: int, depth: int) -> bool {
    &&& col <= depth < n
    &&& (depth == col || pattern[depth * n + col])
    &&& forall|k: int| depth < k < n ==> !#[trigger] pattern[k * n + col]
}

proof fn lemma_cell_in_range(n: int, row: int, col: int)
    requires
        0 <= row < n,
        0 <= col < n,
    ensures
        0 <= row * n + col < n * n,
{
    assert(row * n + col < n * n) by (nonlinear_arith)
        requires
            0 <= row < n,
            0 <= col < n,
    ;
    assert(0 <= row * n) by (nonlinear_arith)
        requires
            0 <= row,
            0 <= n,
    ;
}

/// The two structural bounds the factorisation needs, read off the pattern of
/// positions that can ever be nonzero: how far right each row reaches and how
/// far down each column does. The diagonal is always in play.
pub fn structure_templates(pattern: &[bool], n: usize) -> (templates: (Vec<usize>, Vec<usize>))
    requires
        n * n <= pattern@.len(),
    ensures
        templates.0@.len() == n,
        templates.1@.len() == n,
        forall|row: int| 0 <= row < n ==> is_row_reach(pattern@, n as int, row, #[trigger] templates.0@[row] as int),
        forall|col: int| 0 <= col < n ==> is_column_depth(pattern@, n as int, col, #[trigger] templates.1@[col] as int),
{
    let len = pattern.len();
    let mut reach: Vec<usize> = Vec::new();
    let mut depth: Vec<usize> = Vec::new();
    let mut row: usize = 0;
    while row < n
        invariant
            n * n <= pattern@.len(),
            len == pattern@.len(),
            0 <= row <= n,
            reach@.len() == row,
            depth@.len() == row,
            forall|r: int| 0 <= r < row ==> is_row_reach(pattern@, n as int, r, #[trigger] reach@[r] as int),
            forall|c: int| 0 <= c < row ==> is_column_depth(pattern@, n as int, c, #[trigger] depth@[c] as int),
        decreases n - row,
    {
        // The last marked column of this row, searching in from the right.
        let mut k = n - 1;
        while k > row
            invariant
                n * n <= pattern@.len(),
                len == pattern@.len(),
                row < n,
                row <= k < n,
                forall|j: int| k < j < n ==> !#[trigger] pattern@[row * n + j],
            ensures
                row <= k < n,
                k == row || pattern@[row * n + k],
                forall|j: int| k < j < n ==> !#[trigger] pattern@[row * n + j],
            decreases k,
        {
            proof {
                lemma_cell_in_range(n as int, row as int, k as int);
            }
            if pattern[row * n + k] {
                break;
            }
            k = k - 1;
        }
        reach.push(k);
        // The last marked row of this column, searching up from the bottom.
        let mut k = n - 1;
        while k > row
            invariant
                n * n <= pattern@.len(),
                len == pattern@.len(),
                row < n,
                row <= k < n,
                forall|j: int| k < j < n ==> !#[trigger] pattern@[j * n + row],
            ensures
                row <= k < n,
                k == row || pattern@[k * n + row],
                forall|j: int| k < j < n ==> !#[trigger] pattern@[j * n + row],
            decreases k,
        {
            proof {
                lemma_cell_in_range(n as int, k as int, row as int);
            }
            if pattern[k * n + row] {
                break;
            }
            k = k - 1;
        }
        depth.push(k);
        row = row + 1;
    }
    (reach, depth)
}


/// The marked columns of row `row` among its first `count`, ascending.
pub open spec fn row_columns(pattern: Seq<bool>, n: int, row: int, count: int) -> Seq<usize>
    decreases count,
{
    if count <= 0 {
        Seq::empty()
    } else {
        row_columns(pattern, n, row, count - 1) + if pattern[row * n + count - 1] {
            seq![(count - 1) as usize]
        } else {
            Seq::empty()
        }
    }
}

/// The marked columns of the first `rows` rows, each row up to its reach,
/// one row after another.
pub open spec fn compact_columns(pattern: Seq<bool>, n: int, reach: Seq<usize>, rows: int) -> Seq<usize>
    decreases rows,
{
    if rows <= 0 {
        Seq::empty()
    } else {
        compact_columns(pattern, n, reach, rows - 1) + row_columns(
            pattern,
            n,
            rows - 1,
            reach[rows - 1] + 1,
        )
    }
}

/// The same entries as matrix positions rather than columns.
pub open spec fn compact_slots(pattern: Seq<bool>, n: int, reach: Seq<usize>, rows: int) -> Seq<usize>
    decreases rows,
{
    if rows <= 0 {
        Seq::empty()
    } else {
        compact_slots(pattern, n, reach, rows - 1) + row_columns(pattern, n, rows - 1, reach[rows - 1] + 1).map_values(
            |col: usize| ((rows - 1) * n + col) as usize,
        )
    }
}

/// A compact row map of the pattern: for each row, the columns up to its
/// reach that can be nonzero, in ascending order, with where each one sits
/// in the matrix, and where each row's run starts.
pub fn compact_rows(pattern: &[bool], reach: &[usize], n: usize) -> (map: (Vec<usize>, Vec<usize>, Vec<usize>))
    requires
        n * n <= pattern@.len(),
        reach@.len() == n,
        forall|row: int| 0 <= row < n ==> #[trigger] reach@[row] < n,
    ensures
        map.0@.len() == n + 1,
        forall|row: int| 0 <= row <= n ==> #[trigger] map.0@[row] == compact_columns(pattern@, n as int, reach@, row).len(),
        map.1@ == compact_columns(pattern@, n as int, reach@, n as int),
        map.2@ == compact_slots(pattern@, n as int, reach@, n as int),
{
    let len = pattern.len();
    let mut offsets: Vec<usize> = Vec::new();
    let mut columns: Vec<usize> = Vec::new();
    let mut slots: Vec<usize> = Vec::new();
    offsets.push(0);
    let mut row: usize = 0;
    while row < n
        invariant
            n * n <= pattern@.len(),
            len == pattern@.len(),
            reach@.len() == n,
            forall|row: int| 0 <= row < n ==> #[trigger] reach@[row] < n,
            0 <= row <= n,
            offsets@.len() == row + 1,
            forall|r: int| 0 <= r <= row ==> #[trigger] offsets@[r] == compact_columns(pattern@, n as int, reach@, r).len(),
            columns@ == compact_columns(pattern@, n as int, reach@, row as int),
            slots@ == compact_slots(pattern@, n as int, reach@, row as int),
        decreases n - row,
    {
        proof {
            lemma_cell_in_range(n as int, row as int, 0);
        }
        assert(row * n <= len);
        let row_start = row * n;
        let row_reach = reach[row];
        let ghost before_columns = columns@;
        let ghost before_slots = slots@;
        let mut col: usize = 0;
        while col <= row_reach
            invariant
                n * n <= pattern@.len(),
                len == pattern@.len(),
                row < n,
                row_start == row * n,
                row_reach < n,
                0 <= col <= row_reach + 1,
                columns@ == before_columns + row_columns(pattern@, n as int, row as int, col as int),
                slots@ == before_slots + row_columns(pattern@, n as int, row as int, col as int).map_values(
                    |c: usize| (row * n + c) as usize,
                ),
            decreases row_reach + 1 - col,
        {
            proof {
                lemma_cell_in_range(n as int, row as int, col as int);
            }
            let slot = row_start + col;
            let ghost earlier = row_columns(pattern@, n as int, row as int, col as int);
            if pattern[slot] {
                columns.push(col);
                slots.push(slot);
                proof {
                    assert(row_columns(pattern@, n as int, row as int, col + 1) == earlier + seq![col]);
                    assert(columns@ =~= before_columns + row_columns(pattern@, n as int, row as int, col + 1));
                    assert(row_columns(pattern@, n as int, row as int, col + 1).map_values(
                        |c: usize| (row * n + c) as usize,
                    ) =~= earlier.map_values(|c: usize| (row * n + c) as usize).push(slot));
                    assert(slots@ =~= before_slots + row_columns(pattern@, n as int, row as int, col + 1).map_values(
                        |c: usize| (row * n + c) as usize,
                    ));
                }
            } else {
                proof {
                    assert(row_columns(pattern@, n as int, row as int, col + 1) =~= earlier);
                }
            }
            col = col + 1;
        }
        offsets.push(columns.len());
        proof {
            assert(columns@ =~= compact_columns(pattern@, n as int, reach@, row + 1));
            assert(slots@ =~= compact_slots(pattern@, n as int, reach@, row + 1));
        }
        row = row + 1;
    }
    (offsets, columns, slots)
}

/// The positions of `pattern` among its first `count` that are marked,
/// ascending.
pub open spec fn marked_positions(pattern: Seq<bool>, count: int) -> Seq<usize>
    decreases count,
{
    if count <= 0 {
        Seq::empty()
    } else {
        marked_positions(pattern, count - 1) + if pattern[count - 1] {
            seq![(count - 1) as usize]
        } else {
            Seq::empty()
        }
    }
}

/// Where the marked positions are, in ascending order.
pub fn marked_slots(pattern: &[bool]) -> (slots: Vec<usize>)
    ensures
        slots@ == marked_positions(pattern@, pattern@.len() as int),
{
    let mut slots: Vec<usize> = Vec::new();
    let mut index: usize = 0;
    while index < pattern.len()
        invariant
            0 <= index <= pattern@.len(),
            slots@ == marked_positions(pattern@, index as int),
        decreases pattern@.len() - index,
    {
        if pattern[index] {
            slots.push(index);
        }
        proof {
            assert(slots@ =~= marked_positions(pattern@, index + 1));
        }
        index = index + 1;
    }
    slots
}


/// Part `i` can change the coefficient or right-hand side at unknown `k` from
/// one Newton pass to the next: it is a device touching `k`, or an op-amp
/// whose own branch row is `k`.
pub open spec fn nonlinear_at(parts: Seq<Part>, branch_row: Seq<usize>, i: int, k: usize) -> bool {
    &&& !parts[i].has_response()
    &&& (parts[i].pins().contains(k) || (parts[i] is OpAmp && branch_row[i] == k))
}

/// Part `i` drives the right-hand side at node `k`: a source at `k`, or a
/// reactance with an end on `k`, whose history current lands there.
pub open spec fn drives_rhs_at(part: Part, k: usize) -> bool {
    match part {
        Part::Input { node } => node == k,
        Part::Supply { node } => node == k,
        Part::Capacitor { a, b } => a == k || b == k,
        Part::Inductor { a, b } => a == k || b == k,
        _ => false,
    }
}

/// The unknowns below `n` some device can stamp: the smallest exact boundary
/// the topology gives.
pub open spec fn nonlinear_boundary_mask(circuit: Circuit, n: int) -> Seq<bool> {
    Seq::new(
        n as nat,
        |k: int|
            exists|i: int|
                0 <= i < circuit.parts@.len() && #[trigger] nonlinear_at(
                    circuit.parts@,
                    circuit.branch_row@,
                    i,
                    k as usize,
                ),
    )
}

proof fn lemma_marked_position_listed(pattern: Seq<bool>, count: int, k: int)
    requires
        0 <= k < count,
        count <= pattern.len(),
        pattern[k],
        k <= usize::MAX,
    ensures
        marked_positions(pattern, count).contains(k as usize),
    decreases count,
{
    let listed = marked_positions(pattern, count);
    if k == count - 1 {
        assert(listed[listed.len() - 1] == k as usize);
    } else {
        lemma_marked_position_listed(pattern, count - 1, k);
        let before = marked_positions(pattern, count - 1);
        let j = choose|j: int| 0 <= j < before.len() && before[j] == k as usize;
        assert(listed[j] == k as usize);
    }
}

/// Every unknown below `n` that a device's stamp can change is on the
/// nonlinear boundary `boundary_nodes` returns: each terminal of a diode,
/// triode, pentode, op-amp, JFET, core or transistor, and the branch row an
/// op-amp carries its output current on, which its rail state rewrites on
/// every pass. Condensing everything else away is then exact.
pub proof fn every_device_unknown_is_on_the_boundary(circuit: Circuit, n: int, i: int, k: usize)
    requires
        0 <= i < circuit.parts@.len(),
        circuit.branch_row@.len() == circuit.parts@.len(),
        k < n,
        ({
            let part = circuit.parts@[i];
            ||| (part is Diode || part is Triode || part is Pentode || part is OpAmp || part is Jfet
                || part is Core || part is Bipolar) && part.pins().contains(k)
            ||| part is OpAmp && circuit.branch_row@[i] == k
        }),
    ensures
        marked_positions(nonlinear_boundary_mask(circuit, n), n).contains(k),
{
    let mask = nonlinear_boundary_mask(circuit, n);
    assert(nonlinear_at(circuit.parts@, circuit.branch_row@, i, (k as int) as usize));
    assert(mask.len() == n);
    assert(mask[k as int]);
    lemma_marked_position_listed(mask, n, k as int);
}

proof fn lemma_listed_position_marked(pattern: Seq<bool>, count: int, k: usize)
    requires
        marked_positions(pattern, count).contains(k),
        count <= usize::MAX,
    ensures
        k < count,
        pattern[k as int],
    decreases count,
{
    if count > 0 {
        let listed = marked_positions(pattern, count);
        let before = marked_positions(pattern, count - 1);
        let j = choose|j: int| 0 <= j < listed.len() && listed[j] == k;
        if j < before.len() {
            assert(before[j] == k);
            lemma_listed_position_marked(pattern, count - 1, k);
        } else {
            assert(pattern[count - 1]);
            assert(k == (count - 1) as usize);
        }
    }
}

/// And the boundary holds nothing else: every unknown on it is a terminal of
/// some device or the branch row of some op-amp, so nothing a linear part
/// alone touches is kept out of the condensation.
pub proof fn the_boundary_holds_only_device_unknowns(circuit: Circuit, n: int, k: usize)
    requires
        circuit.branch_row@.len() == circuit.parts@.len(),
        n <= usize::MAX,
        marked_positions(nonlinear_boundary_mask(circuit, n), n).contains(k),
    ensures
        k < n,
        exists|i: int|
            0 <= i < circuit.parts@.len() && {
                let part = #[trigger] circuit.parts@[i];
                ||| (part is Diode || part is Triode || part is Pentode || part is OpAmp || part is Jfet
                    || part is Core || part is Bipolar) && part.pins().contains(k)
                ||| part is OpAmp && circuit.branch_row@[i] == k
            },
{
    let mask = nonlinear_boundary_mask(circuit, n);
    lemma_listed_position_marked(mask, n, k);
    assert(mask[k as int]);
    let i = choose|i: int|
        0 <= i < circuit.parts@.len() && #[trigger] nonlinear_at(
            circuit.parts@,
            circuit.branch_row@,
            i,
            (k as int) as usize,
        );
    assert(nonlinear_at(circuit.parts@, circuit.branch_row@, i, k));
    let part = circuit.parts@[i];
    assert(!part.has_response());
}

/// The right-hand-side-active nodes `boundary_nodes` returns are exactly the
/// nodes below `n` where an input or a supply sits or a capacitor or an
/// inductor has an end: the places a source current or a reactance's history
/// current is injected.
pub proof fn the_active_nodes_are_where_sources_and_reactances_sit(circuit: Circuit, n: int, k: usize)
    requires
        k < n <= usize::MAX,
    ensures
        marked_positions(rhs_active_mask(circuit, n), n).contains(k) <==> exists|i: int|
            0 <= i < circuit.parts@.len() && match #[trigger] circuit.parts@[i] {
                Part::Input { node } => node == k,
                Part::Supply { node } => node == k,
                Part::Capacitor { a, b } => a == k || b == k,
                Part::Inductor { a, b } => a == k || b == k,
                _ => false,
            },
{
    let mask = rhs_active_mask(circuit, n);
    assert(mask.len() == n);
    if marked_positions(mask, n).contains(k) {
        lemma_listed_position_marked(mask, n, k);
        assert(mask[k as int]);
        let i = choose|i: int|
            0 <= i < circuit.parts@.len() && #[trigger] drives_rhs_at(circuit.parts@[i], (k as int) as usize);
        assert(drives_rhs_at(circuit.parts@[i], k));
    }
    if exists|i: int|
        0 <= i < circuit.parts@.len() && match #[trigger] circuit.parts@[i] {
            Part::Input { node } => node == k,
            Part::Supply { node } => node == k,
            Part::Capacitor { a, b } => a == k || b == k,
            Part::Inductor { a, b } => a == k || b == k,
            _ => false,
        } {
        let i = choose|i: int|
            0 <= i < circuit.parts@.len() && match #[trigger] circuit.parts@[i] {
                Part::Input { node } => node == k,
                Part::Supply { node } => node == k,
                Part::Capacitor { a, b } => a == k || b == k,
                Part::Inductor { a, b } => a == k || b == k,
                _ => false,
            };
        assert(drives_rhs_at(circuit.parts@[i], (k as int) as usize));
        assert(mask[k as int]);
        lemma_marked_position_listed(mask, n, k as int);
    }
}

/// The nodes below `n` whose right-hand side a source or reactance drives.
pub open spec fn rhs_active_mask(circuit: Circuit, n: int) -> Seq<bool> {
    Seq::new(
        n as nat,
        |k: int|
            exists|i: int| 0 <= i < circuit.parts@.len() && #[trigger] drives_rhs_at(circuit.parts@[i], k as usize),
    )
}

/// The nonlinear boundary and the right-hand-side-active nodes of an `n`
/// unknown circuit, each in ascending order. Every terminal a device can
/// stamp is on the boundary, and so is an op-amp's own branch variable.
pub fn boundary_nodes(circuit: &Circuit, n: usize) -> (nodes: (Vec<usize>, Vec<usize>))
    requires
        circuit.branch_row@.len() == circuit.parts@.len(),
    ensures
        nodes.0@ == marked_positions(nonlinear_boundary_mask(*circuit, n as int), n as int),
        nodes.1@ == marked_positions(rhs_active_mask(*circuit, n as int), n as int),
{
    let ghost parts = circuit.parts@;
    let ghost rows = circuit.branch_row@;
    let mut boundary: Vec<bool> = Vec::new();
    let mut active: Vec<bool> = Vec::new();
    while boundary.len() < n
        invariant
            boundary@.len() == active@.len(),
            boundary@.len() <= n,
            forall|k: int| 0 <= k < boundary@.len() ==> !boundary@[k] && !active@[k],
        decreases n - boundary@.len(),
    {
        boundary.push(false);
        active.push(false);
    }
    let mut index: usize = 0;
    while index < circuit.parts.len()
        invariant
            parts == circuit.parts@,
            rows == circuit.branch_row@,
            rows.len() == parts.len(),
            0 <= index <= parts.len(),
            boundary@.len() == n,
            active@.len() == n,
            forall|k: int|
                0 <= k < n ==> (#[trigger] boundary@[k] <==> exists|i: int|
                    0 <= i < index && #[trigger] nonlinear_at(parts, rows, i, k as usize)),
            forall|k: int|
                0 <= k < n ==> (#[trigger] active@[k] <==> exists|i: int|
                    0 <= i < index && #[trigger] drives_rhs_at(parts[i], k as usize)),
        decreases parts.len() - index,
    {
        let part = circuit.parts[index];
        let ghost before_boundary = boundary@;
        let ghost before_active = active@;
        if !part.is_linear() {
            let pins = part.touches();
            let mut j: usize = 0;
            while j < pins.len()
                invariant
                    parts == circuit.parts@,
                    rows == circuit.branch_row@,
                    0 <= index < parts.len(),
                    part == parts[index as int],
                    !part.has_response(),
                    pins@ == part.pins(),
                    0 <= j <= pins@.len(),
                    boundary@.len() == n,
                    forall|k: int|
                        0 <= k < n ==> (#[trigger] boundary@[k] <==> (before_boundary[k] || pins@.subrange(
                            0,
                            j as int,
                        ).contains(k as usize))),
                decreases pins@.len() - j,
            {
                let node = pins[j];
                if node < n {
                    boundary.set(node, true);
                }
                proof {
                    assert forall|k: int| 0 <= k < n implies (#[trigger] boundary@[k] <==> (before_boundary[k]
                        || pins@.subrange(0, j + 1).contains(k as usize))) by {
                        let longer = pins@.subrange(0, j + 1);
                        let shorter = pins@.subrange(0, j as int);
                        assert(longer =~= shorter.push(node));
                        if longer.contains(k as usize) && k as usize != node {
                            let at = choose|at: int| 0 <= at < longer.len() && longer[at] == k as usize;
                            assert(shorter[at] == k as usize);
                        }
                        if shorter.contains(k as usize) {
                            let at = choose|at: int| 0 <= at < shorter.len() && shorter[at] == k as usize;
                            assert(longer[at] == k as usize);
                        }
                        if k as usize == node {
                            assert(longer[j as int] == node);
                        }
                    }
                }
                j = j + 1;
            }
            assert(pins@.subrange(0, pins@.len() as int) =~= pins@);
            if let Part::OpAmp { .. } = part {
                let branch = circuit.branch_row[index];
                if branch < n {
                    boundary.set(branch, true);
                }
            }
        }
        match part {
            Part::Input { node } | Part::Supply { node } => {
                if node < n {
                    active.set(node, true);
                }
            },
            Part::Capacitor { a, b } | Part::Inductor { a, b } => {
                if a < n {
                    active.set(a, true);
                }
                if b < n {
                    active.set(b, true);
                }
            },
            _ => {},
        }
        proof {
            assert forall|k: int|
                0 <= k < n implies (#[trigger] boundary@[k] <==> exists|i: int|
                0 <= i < index + 1 && #[trigger] nonlinear_at(parts, rows, i, k as usize)) by {
                if boundary@[k] && !before_boundary[k] {
                    assert(nonlinear_at(parts, rows, index as int, k as usize));
                }
                if exists|i: int| 0 <= i < index + 1 && #[trigger] nonlinear_at(parts, rows, i, k as usize) {
                    let i = choose|i: int| 0 <= i < index + 1 && #[trigger] nonlinear_at(parts, rows, i, k as usize);
                    if i == index as int {
                        if part.pins().contains(k as usize) {
                        } else {
                        }
                    } else {
                        assert(before_boundary[k]);
                    }
                }
            }
            assert forall|k: int|
                0 <= k < n implies (#[trigger] active@[k] <==> exists|i: int|
                0 <= i < index + 1 && #[trigger] drives_rhs_at(parts[i], k as usize)) by {
                if active@[k] && !before_active[k] {
                    assert(drives_rhs_at(parts[index as int], k as usize));
                }
                if exists|i: int| 0 <= i < index + 1 && #[trigger] drives_rhs_at(parts[i], k as usize) {
                    let i = choose|i: int| 0 <= i < index + 1 && #[trigger] drives_rhs_at(parts[i], k as usize);
                    if i < index {
                        assert(before_active[k]);
                    }
                }
            }
        }
        index = index + 1;
    }
    assert(boundary@ =~= nonlinear_boundary_mask(*circuit, n as int));
    assert(active@ =~= rhs_active_mask(*circuit, n as int));
    (marked_slots(boundary.as_slice()), marked_slots(active.as_slice()))
}


/// Ascending, each entry once.
pub open spec fn strictly_ascending(list: Seq<usize>) -> bool {
    forall|i: int, j: int| 0 <= i < j < list.len() ==> #[trigger] list[i] < #[trigger] list[j]
}

/// Ascending, repeats allowed.
pub open spec fn ascending(list: Seq<usize>) -> bool {
    forall|i: int, j: int| 0 <= i < j < list.len() ==> #[trigger] list[i] <= #[trigger] list[j]
}

/// `list` in ascending order.
fn sorted(list: &Vec<usize>) -> (ordered: Vec<usize>)
    ensures
        ascending(ordered@),
        ordered@.to_multiset() == list@.to_multiset(),
{
    broadcast use vstd::multiset::group_multiset_axioms, vstd::seq_lib::group_to_multiset_ensures;
    let mut ordered: Vec<usize> = Vec::new();
    let mut c: usize = 0;
    while c < list.len()
        invariant
            0 <= c <= list@.len(),
            ordered@.to_multiset() == list@.subrange(0, c as int).to_multiset(),
            ascending(ordered@),
        decreases list@.len() - c,
    {
        let x = list[c];
        let mut k: usize = 0;
        while k < ordered.len() && ordered[k] <= x
            invariant
                0 <= k <= ordered@.len(),
                forall|i: int| 0 <= i < k ==> #[trigger] ordered@[i] <= x,
            decreases ordered@.len() - k,
        {
            k = k + 1;
        }
        let ghost earlier = ordered@;
        ordered.insert(k, x);
        proof {
            assert(ordered@ =~= earlier.insert(k as int, x));
            vstd::seq_lib::to_multiset_insert(earlier, k as int, x);
            assert(list@.subrange(0, c + 1) =~= list@.subrange(0, c as int).push(x));
            vstd::seq_lib::to_multiset_build(list@.subrange(0, c as int), x);
            assert forall|i: int, j: int| 0 <= i < j < ordered@.len() implies #[trigger] ordered@[i]
                <= #[trigger] ordered@[j] by {
                if j < k {
                    assert(ordered@[i] == earlier[i] && ordered@[j] == earlier[j]);
                } else if j == k {
                    assert(ordered@[i] == earlier[i]);
                } else if i == k {
                    assert(ordered@[j] == earlier[j - 1]);
                    assert(earlier[k as int] > x);
                    if j - 1 > k {
                        assert(earlier[k as int] <= earlier[j - 1]);
                    }
                } else if i < k {
                    assert(ordered@[i] == earlier[i] && ordered@[j] == earlier[j - 1]);
                } else {
                    assert(ordered@[i] == earlier[i - 1] && ordered@[j] == earlier[j - 1]);
                }
            }
        }
        c = c + 1;
    }
    assert(list@.subrange(0, list@.len() as int) =~= list@);
    ordered
}

/// Whether `mask` selects entry `bit`.
pub open spec fn selects(mask: usize, bit: usize) -> bool {
    mask & (1usize << bit) != 0usize
}

/// The entries of `optional` among its first `upto` that `mask` selects, in
/// order.
pub open spec fn chosen(optional: Seq<usize>, mask: usize, upto: int) -> Seq<usize>
    decreases upto,
{
    if upto <= 0 {
        Seq::empty()
    } else {
        chosen(optional, mask, upto - 1) + if selects(mask, (upto - 1) as usize) {
            seq![optional[upto - 1]]
        } else {
            Seq::empty()
        }
    }
}

/// The masks below `upto` that select exactly `size` of the first `len`
/// entries, ascending.
pub open spec fn masks_of_size(optional: Seq<usize>, size: int, upto: int) -> Seq<usize>
    decreases upto,
{
    if upto <= 0 {
        Seq::empty()
    } else {
        masks_of_size(optional, size, upto - 1) + if chosen(
            optional,
            (upto - 1) as usize,
            optional.len() as int,
        ).len() == size {
            seq![(upto - 1) as usize]
        } else {
            Seq::empty()
        }
    }
}

/// Every mask over `optional`, the ones selecting fewer entries first, and
/// ascending among equals: the sizes below `sizes`.
pub open spec fn masks_by_size(optional: Seq<usize>, sizes: int, combinations: int) -> Seq<usize>
    decreases sizes,
{
    if sizes <= 0 {
        Seq::empty()
    } else {
        masks_by_size(optional, sizes - 1, combinations) + masks_of_size(
            optional,
            sizes - 1,
            combinations,
        )
    }
}

/// `candidate` is `boundary` with `mask`'s choice of `optional` promoted onto
/// it, in ascending order.
pub open spec fn promoted(candidate: Seq<usize>, boundary: Seq<usize>, optional: Seq<usize>, mask: usize) -> bool {
    &&& ascending(candidate)
    &&& candidate.to_multiset() == (boundary + chosen(optional, mask, optional.len() as int)).to_multiset()
}

/// How many of the first `len` entries `mask` selects.
fn selected_count(mask: usize, len: usize, optional: &Vec<usize>) -> (count: usize)
    requires
        len == optional@.len(),
        len <= 10,
    ensures
        count == chosen(optional@, mask, len as int).len(),
{
    let mut count: usize = 0;
    let mut bit: usize = 0;
    while bit < len
        invariant
            len == optional@.len(),
            len <= 10,
            0 <= bit <= len,
            count == chosen(optional@, mask, bit as int).len(),
            count <= bit,
        decreases len - bit,
    {
        if mask & (1usize << bit) != 0 {
            count = count + 1;
        }
        bit = bit + 1;
    }
    count
}

/// `boundary` with the entries of `optional` that `mask` selects appended,
/// then put in ascending order.
fn promote(boundary: &Vec<usize>, optional: &Vec<usize>, mask: usize) -> (candidate: Vec<usize>)
    requires
        optional@.len() <= 10,
    ensures
        promoted(candidate@, boundary@, optional@, mask),
{
    let mut candidate: Vec<usize> = Vec::new();
    let mut i: usize = 0;
    while i < boundary.len()
        invariant
            0 <= i <= boundary@.len(),
            candidate@ == boundary@.subrange(0, i as int),
        decreases boundary@.len() - i,
    {
        candidate.push(boundary[i]);
        assert(candidate@ =~= boundary@.subrange(0, i + 1));
        i = i + 1;
    }
    assert(boundary@.subrange(0, boundary@.len() as int) =~= boundary@);
    let mut bit: usize = 0;
    while bit < optional.len()
        invariant
            optional@.len() <= 10,
            0 <= bit <= optional@.len(),
            candidate@ == boundary@ + chosen(optional@, mask, bit as int),
        decreases optional@.len() - bit,
    {
        if mask & (1usize << bit) != 0 {
            candidate.push(optional[bit]);
        }
        proof {
            assert(candidate@ =~= boundary@ + chosen(optional@, mask, bit + 1));
        }
        bit = bit + 1;
    }
    sorted(&candidate)
}

/// The boundaries worth trying, smallest first: the nonlinear boundary with
/// every combination of the optional unknowns promoted onto it, fewest
/// promotions first and, among as many, in the order of their masks. Past
/// ten optional unknowns only the two ends are tried: the boundary alone,
/// and with all of them.
pub fn boundary_candidates(boundary: &Vec<usize>, optional: &Vec<usize>) -> (candidates: Vec<Vec<usize>>)
    ensures
        optional@.len() <= 10 ==> {
            let order = masks_by_size(
                optional@,
                optional@.len() + 1 as int,
                (1usize << optional@.len()) as int,
            );
            &&& candidates@.len() == order.len()
            &&& forall|j: int|
                0 <= j < order.len() ==> promoted(#[trigger] candidates@[j]@, boundary@, optional@, order[j])
        },
        optional@.len() > 10 ==> {
            &&& candidates@.len() == 2
            &&& candidates@[0]@ == boundary@
            &&& strictly_ascending(candidates@[1]@)
            &&& candidates@[1]@.to_set() == boundary@.to_set() + optional@.to_set()
        },
{
    let len = optional.len();
    let mut candidates: Vec<Vec<usize>> = Vec::new();
    if len <= 10 {
        assert((1usize << len) <= 1024 && (1usize << len) > 0) by (bit_vector)
            requires
                len <= 10,
        ;
        let combinations: usize = 1usize << len;
        let mut size: usize = 0;
        while size <= len
            invariant
                len == optional@.len(),
                len <= 10,
                combinations == (1usize << len),
                combinations <= 1024,
                0 <= size <= len + 1,
                ({
                    let order = masks_by_size(optional@, size as int, combinations as int);
                    &&& candidates@.len() == order.len()
                    &&& forall|j: int|
                        0 <= j < order.len() ==> promoted(
                            #[trigger] candidates@[j]@,
                            boundary@,
                            optional@,
                            order[j],
                        )
                }),
            decreases len + 1 - size,
        {
            let ghost before = candidates@;
            let mut mask: usize = 0;
            while mask < combinations
                invariant
                    len == optional@.len(),
                    len <= 10,
                    combinations <= 1024,
                    size <= len,
                    0 <= mask <= combinations,
                    ({
                        let order = masks_by_size(optional@, size as int, combinations as int)
                            + masks_of_size(optional@, size as int, mask as int);
                        &&& candidates@.len() == order.len()
                        &&& forall|j: int|
                            0 <= j < order.len() ==> promoted(
                                #[trigger] candidates@[j]@,
                                boundary@,
                                optional@,
                                order[j],
                            )
                    }),
                decreases combinations - mask,
            {
                let ghost earlier = masks_by_size(optional@, size as int, combinations as int)
                    + masks_of_size(optional@, size as int, mask as int);
                let ghost later = masks_by_size(optional@, size as int, combinations as int)
                    + masks_of_size(optional@, size as int, mask + 1);
                if selected_count(mask, len, optional) == size {
                    let candidate = promote(boundary, optional, mask);
                    let ghost kept = candidates@;
                    candidates.push(candidate);
                    proof {
                        assert(later =~= earlier.push(mask));
                        assert forall|j: int| 0 <= j < later.len() implies promoted(
                            #[trigger] candidates@[j]@,
                            boundary@,
                            optional@,
                            later[j],
                        ) by {
                            if j < earlier.len() {
                                assert(candidates@[j] == kept[j]);
                            }
                        }
                    }
                } else {
                    proof {
                        assert(later =~= earlier);
                    }
                }
                mask = mask + 1;
            }
            proof {
                assert(masks_by_size(optional@, size + 1, combinations as int) =~= masks_by_size(
                    optional@,
                    size as int,
                    combinations as int,
                ) + masks_of_size(optional@, size as int, combinations as int));
            }
            size = size + 1;
        }
    } else {
        let mut alone: Vec<usize> = Vec::new();
        let mut all: Vec<usize> = Vec::new();
        let mut i: usize = 0;
        while i < boundary.len()
            invariant
                0 <= i <= boundary@.len(),
                alone@ == boundary@.subrange(0, i as int),
                all@ == boundary@.subrange(0, i as int),
            decreases boundary@.len() - i,
        {
            alone.push(boundary[i]);
            all.push(boundary[i]);
            assert(alone@ =~= boundary@.subrange(0, i + 1));
            i = i + 1;
        }
        assert(boundary@.subrange(0, boundary@.len() as int) =~= boundary@);
        let mut i: usize = 0;
        while i < optional.len()
            invariant
                0 <= i <= optional@.len(),
                all@ == boundary@ + optional@.subrange(0, i as int),
            decreases optional@.len() - i,
        {
            all.push(optional[i]);
            assert(all@ =~= boundary@ + optional@.subrange(0, i + 1));
            i = i + 1;
        }
        assert(optional@.subrange(0, optional@.len() as int) =~= optional@);
        let ordered = sorted(&all);
        let conservative = without_repeats(&ordered);
        proof {
            broadcast use vstd::seq_lib::group_to_multiset_ensures;
            assert forall|x: usize| conservative@.to_set().contains(x) == (boundary@.to_set() + optional@.to_set()).contains(x) by {
                assert(ordered@.to_multiset().count(x) == all@.to_multiset().count(x));
                if all@.contains(x) {
                    let k = choose|k: int| 0 <= k < all@.len() && all@[k] == x;
                    if k < boundary@.len() {
                        assert(boundary@[k] == x);
                    } else {
                        assert(optional@[k - boundary@.len()] == x);
                    }
                }
                if boundary@.contains(x) {
                    let k = choose|k: int| 0 <= k < boundary@.len() && boundary@[k] == x;
                    assert(all@[k] == x);
                }
                if optional@.contains(x) {
                    let k = choose|k: int| 0 <= k < optional@.len() && optional@[k] == x;
                    assert(all@[boundary@.len() + k] == x);
                }
            }
            assert(conservative@.to_set() =~= boundary@.to_set() + optional@.to_set());
        }
        candidates.push(alone);
        candidates.push(conservative);
    }
    candidates
}

/// An ascending list with repeats dropped.
fn without_repeats(list: &Vec<usize>) -> (distinct: Vec<usize>)
    requires
        ascending(list@),
    ensures
        strictly_ascending(distinct@),
        distinct@.to_set() == list@.to_set(),
{
    let mut distinct: Vec<usize> = Vec::new();
    let mut i: usize = 0;
    while i < list.len()
        invariant
            ascending(list@),
            0 <= i <= list@.len(),
            strictly_ascending(distinct@),
            distinct@.to_set() == list@.subrange(0, i as int).to_set(),
            distinct@.len() > 0 ==> i > 0 && distinct@.last() == list@[i - 1],
            distinct@.len() == 0 ==> i == 0,
        decreases list@.len() - i,
    {
        let x = list[i];
        let ghost before = distinct@;
        if distinct.len() == 0 || distinct[distinct.len() - 1] != x {
            distinct.push(x);
            proof {
                if before.len() > 0 {
                    assert(list@[i - 1] <= x);
                }
                assert forall|a: int, b: int| 0 <= a < b < distinct@.len() implies #[trigger] distinct@[a]
                    < #[trigger] distinct@[b] by {
                    if b == before.len() && a < before.len() {
                        assert(before[a] <= before.last());
                    }
                }
            }
        }
        proof {
            let shorter = list@.subrange(0, i as int);
            assert(list@.subrange(0, i + 1) =~= shorter.push(x));
            shorter.lemma_push_to_set_commute(x);
            if distinct@.len() > before.len() {
                before.lemma_push_to_set_commute(x);
            } else {
                assert(before.last() == x);
                assert(before.to_set().contains(x)) by {
                    assert(before[before.len() - 1] == x);
                }
                assert(before.to_set().insert(x) =~= before.to_set());
            }
            assert(distinct@.to_set() =~= list@.subrange(0, i + 1).to_set());
        }
        i = i + 1;
    }
    assert(list@.subrange(0, list@.len() as int) =~= list@);
    distinct
}


/// An unknown the condensation may promote onto the boundary if the internal
/// block would otherwise be singular: a transformer's branch current, or the
/// output, so long as it is below `n` and not on the boundary already.
pub open spec fn promotable(circuit: Circuit, boundary: Seq<usize>, n: int, k: usize) -> bool {
    &&& k < n
    &&& !boundary.contains(k)
    &&& ((exists|i: int|
        0 <= i < circuit.parts@.len() && circuit.parts@[i] is Transformer && #[trigger] circuit.branch_row@[i]
            == k) || k == circuit.output)
}

/// The unknowns that may be promoted onto `boundary`, ascending.
pub fn optional_promotions(circuit: &Circuit, boundary: &Vec<usize>, n: usize) -> (optional: Vec<usize>)
    requires
        circuit.branch_row@.len() == circuit.parts@.len(),
    ensures
        strictly_ascending(optional@),
        forall|k: usize| #[trigger] optional@.contains(k) <==> promotable(*circuit, boundary@, n as int, k),
{
    let mut optional: Vec<usize> = Vec::new();
    let mut index: usize = 0;
    while index < circuit.parts.len()
        invariant
            circuit.branch_row@.len() == circuit.parts@.len(),
            0 <= index <= circuit.parts@.len(),
            optional@.no_duplicates(),
            forall|k: usize|
                #[trigger] optional@.contains(k) <==> (k < n && !boundary@.contains(k) && exists|i: int|
                    0 <= i < index && circuit.parts@[i] is Transformer && #[trigger] circuit.branch_row@[i]
                        == k),
        decreases circuit.parts@.len() - index,
    {
        let ghost before = optional@;
        if let Part::Transformer { .. } = circuit.parts[index] {
            let branch = circuit.branch_row[index];
            if branch < n && !holds(boundary, branch) && !holds(&optional, branch) {
                optional.push(branch);
                proof {
                    lemma_push_keeps_distinct(before, branch);
                }
            }
        }
        proof {
            assert forall|k: usize|
                #[trigger] optional@.contains(k) <==> (k < n && !boundary@.contains(k) && exists|i: int|
                    0 <= i < index + 1 && circuit.parts@[i] is Transformer && #[trigger] circuit.branch_row@[i]
                        == k) by {
                lemma_contains_after_push(before, circuit.branch_row@[index as int], k);
                if exists|i: int|
                    0 <= i < index + 1 && circuit.parts@[i] is Transformer && #[trigger] circuit.branch_row@[i]
                        == k {
                    let i = choose|i: int|
                        0 <= i < index + 1 && circuit.parts@[i] is Transformer && #[trigger] circuit.branch_row@[i]
                            == k;
                    if i < index {
                    }
                }
            }
        }
        index = index + 1;
    }
    let output = circuit.output;
    let ghost before = optional@;
    if output < n && !holds(boundary, output) && !holds(&optional, output) {
        optional.push(output);
        proof {
            lemma_push_keeps_distinct(before, output);
        }
    }
    proof {
        assert forall|k: usize| #[trigger] optional@.contains(k) <==> promotable(*circuit, boundary@, n as int, k) by {
            lemma_contains_after_push(before, output, k);
        }
    }
    let ordered = sorted(&optional);
    proof {
        broadcast use vstd::seq_lib::group_to_multiset_ensures;
        optional@.lemma_multiset_has_no_duplicates();
        ordered@.lemma_multiset_has_no_duplicates_conv();
        assert forall|i: int, j: int| 0 <= i < j < ordered@.len() implies #[trigger] ordered@[i] < #[trigger] ordered@[j] by {
            assert(ordered@[i] <= ordered@[j]);
            assert(ordered@[i] != ordered@[j]);
        }
        assert forall|k: usize| #[trigger] ordered@.contains(k) <==> optional@.contains(k) by {
            assert(ordered@.to_multiset().count(k) == optional@.to_multiset().count(k));
        }
    }
    ordered
}

} // verus!
