//! The index bookkeeping behind condensing internal unknowns onto boundary
//! ones: which unknowns go where, gathering a block out of a matrix, and the
//! counters a reduced solve keeps.

use vstd::prelude::*;
use crate::dsp::netlist::holds;

verus! {

/// Time spent in the two halves of a reduced solve, and how many there were.
#[derive(Clone, Copy, Debug)]
pub struct ReducedSolveProfile {
    pub dense_solve_ns: u64,
    pub recovery_ns: u64,
    pub calls: u64,
}

impl Default for ReducedSolveProfile {
    fn default() -> (profile: Self)
        ensures
            profile.dense_solve_ns == 0,
            profile.recovery_ns == 0,
            profile.calls == 0,
    {
        ReducedSolveProfile { dense_solve_ns: 0, recovery_ns: 0, calls: 0 }
    }
}

/// `a - b`, or zero where `b` is the larger.
pub open spec fn saturating_difference(a: u64, b: u64) -> u64 {
    if a >= b {
        (a - b) as u64
    } else {
        0
    }
}

impl ReducedSolveProfile {
    /// What accumulated between `before` and `self`, each counter taken
    /// separately and none of them going below zero.
    pub fn saturating_delta(self, before: Self) -> (delta: Self)
        ensures
            delta.dense_solve_ns == saturating_difference(self.dense_solve_ns, before.dense_solve_ns),
            delta.recovery_ns == saturating_difference(self.recovery_ns, before.recovery_ns),
            delta.calls == saturating_difference(self.calls, before.calls),
    {
        Self {
            dense_solve_ns: self.dense_solve_ns.saturating_sub(before.dense_solve_ns),
            recovery_ns: self.recovery_ns.saturating_sub(before.recovery_ns),
            calls: self.calls.saturating_sub(before.calls),
        }
    }
}

/// How often a reduced solve replayed, learned and threw away a pivot order.
#[derive(Clone, Copy, Debug)]
pub struct ReducedPivotProfile {
    pub replays: u64,
    pub learns: u64,
    pub invalidations: u64,
}

impl Default for ReducedPivotProfile {
    fn default() -> (profile: Self)
        ensures
            profile.replays == 0,
            profile.learns == 0,
            profile.invalidations == 0,
    {
        ReducedPivotProfile { replays: 0, learns: 0, invalidations: 0 }
    }
}

/// Every index of `0..n` appears in `order` exactly once, and nothing else does.
pub open spec fn is_permutation_of(order: Seq<usize>, n: int) -> bool {
    &&& forall|i: int| 0 <= i < order.len() ==> order[i] < n
    &&& order.no_duplicates()
    &&& forall|k: usize| k < n ==> #[trigger] order.contains(k)
}

/// Marks the indices of `list` in `seen`, where `seen` already records the
/// indices of `before`. Stops at the first index out of range or seen twice.
fn mark_each(seen: &mut Vec<bool>, n: usize, list: &[usize], Ghost(before): Ghost<Seq<usize>>) -> (fine: bool)
    requires
        old(seen)@.len() == n,
        forall|i: int| 0 <= i < before.len() ==> before[i] < n,
        before.no_duplicates(),
        forall|k: usize| k < n ==> (old(seen)@[k as int] <==> #[trigger] before.contains(k)),
    ensures
        final(seen)@.len() == n,
        fine ==> {
            &&& forall|i: int| 0 <= i < (before + list@).len() ==> (before + list@)[i] < n
            &&& (before + list@).no_duplicates()
            &&& forall|k: usize|
                k < n ==> (final(seen)@[k as int] <==> #[trigger] (before + list@).contains(k))
        },
        !fine ==> !(forall|i: int| 0 <= i < (before + list@).len() ==> (before + list@)[i] < n)
            || !(before + list@).no_duplicates(),
{
    let ghost all = before + list@;
    assert(all.subrange(0, before.len() as int) =~= before);
    let mut at: usize = 0;
    while at < list.len()
        invariant
            all == before + list@,
            0 <= at <= list@.len(),
            seen@.len() == n,
            forall|i: int| 0 <= i < before.len() + at ==> all[i] < n,
            all.subrange(0, before.len() + at).no_duplicates(),
            forall|k: usize|
                k < n ==> (seen@[k as int] <==> #[trigger] all.subrange(
                    0,
                    before.len() + at,
                ).contains(k)),
        decreases list@.len() - at,
    {
        let index = list[at];
        let ghost here = before.len() + at;
        assert(index == all[here]);
        if index >= n {
            assert(!(all[here] < n));
            return false;
        }
        let ghost prefix = all.subrange(0, here);
        if seen[index] {
            assert(prefix.contains(index));
            assert(!all.no_duplicates()) by {
                let j = choose|j: int| 0 <= j < prefix.len() && prefix[j] == index;
                assert(all[j] == all[here]);
            }
            return false;
        }
        proof {
            let longer = all.subrange(0, here + 1);
            assert(longer =~= prefix.push(index));
            assert forall|k: usize| k < n implies (seen@.update(index as int, true)[k as int]
                <==> #[trigger] longer.contains(k)) by {
                assert(seen@[k as int] <==> prefix.contains(k));
                if k == index {
                    assert(longer[here] == index);
                } else if longer.contains(k) {
                    let j = choose|j: int| 0 <= j < longer.len() && longer[j] == k;
                    assert(prefix[j] == k);
                } else if prefix.contains(k) {
                    let j = choose|j: int| 0 <= j < prefix.len() && prefix[j] == k;
                    assert(longer[j] == k);
                }
            }
            assert(!prefix.contains(index));
        }
        seen.set(index, true);
        at = at + 1;
    }
    assert(all.subrange(0, all.len() as int) =~= all);
    true
}

/// Whether `internal` followed by `boundary` names every unknown of an `n`
/// unknown system exactly once.
pub fn is_partition(n: usize, internal: &[usize], boundary: &[usize]) -> (answer: bool)
    ensures
        answer == is_permutation_of(internal@ + boundary@, n as int),
{
    let mut seen: Vec<bool> = Vec::new();
    let mut fill: usize = 0;
    while fill < n
        invariant
            0 <= fill <= n,
            seen@.len() == fill,
            forall|k: int| 0 <= k < fill ==> !seen@[k],
        decreases n - fill,
    {
        seen.push(false);
        fill = fill + 1;
    }
    let ghost nothing = Seq::<usize>::empty();
    if !mark_each(&mut seen, n, internal, Ghost(nothing)) {
        assert(nothing + internal@ =~= internal@);
        proof {
            lemma_prefix_of_permutation_fails(internal@, boundary@, n as int);
        }
        return false;
    }
    assert(nothing + internal@ =~= internal@);
    if !mark_each(&mut seen, n, boundary, Ghost(internal@)) {
        assert(!is_permutation_of(internal@ + boundary@, n as int));
        return false;
    }
    let ghost all = internal@ + boundary@;
    let mut check: usize = 0;
    while check < n
        invariant
            0 <= check <= n,
            all == internal@ + boundary@,
            seen@.len() == n,
            all.no_duplicates(),
            forall|i: int| 0 <= i < all.len() ==> all[i] < n,
            forall|k: usize| k < n ==> (seen@[k as int] <==> #[trigger] all.contains(k)),
            forall|k: usize| k < check ==> #[trigger] all.contains(k),
        decreases n - check,
    {
        if !seen[check] {
            assert(!all.contains(check));
            return false;
        }
        check = check + 1;
    }
    true
}

/// A sequence whose front is out of range or repeats itself stays so whatever
/// follows it.
proof fn lemma_prefix_of_permutation_fails(front: Seq<usize>, back: Seq<usize>, n: int)
    requires
        !(forall|i: int| 0 <= i < front.len() ==> front[i] < n) || !front.no_duplicates(),
    ensures
        !is_permutation_of(front + back, n),
{
    let all = front + back;
    if !(forall|i: int| 0 <= i < front.len() ==> front[i] < n) {
        let i = choose|i: int| 0 <= i < front.len() && !(front[i] < n);
        assert(all[i] == front[i]);
    } else {
        let (i, j) = choose|i: int, j: int|
            0 <= i < front.len() && 0 <= j < front.len() && i != j && front[i] == front[j];
        assert(all[i] == front[i] && all[j] == front[j]);
    }
}

/// The block of an `n`-wide row-major matrix taken at `rows` and `columns`,
/// row by row.
pub open spec fn selected<T>(matrix: Seq<T>, rows: Seq<usize>, columns: Seq<usize>, n: int) -> Seq<
    T,
> {
    Seq::new(
        rows.len() * columns.len(),
        |i: int| matrix[rows[i / columns.len() as int] * n + columns[i % columns.len() as int]],
    )
}

proof fn lemma_block_position(r: int, c: int, width: int)
    requires
        0 <= r,
        0 <= c < width,
    ensures
        (r * width + c) / width == r,
        (r * width + c) % width == c,
{
    vstd::arithmetic::div_mod::lemma_fundamental_div_mod_converse(r * width + c, width, r, c);
}

/// Gathers the block of `matrix` at `rows` by `columns`.
pub fn select<T: Copy>(matrix: &[T], rows: &[usize], columns: &[usize], n: usize) -> (block: Vec<T>)
    requires
        forall|r: int, c: int|
            0 <= r < rows@.len() && 0 <= c < columns@.len() ==> #[trigger] rows@[r] * n
                + #[trigger] columns@[c] < matrix@.len(),
    ensures
        block@ == selected(matrix@, rows@, columns@, n as int),
{
    let width = columns.len();
    let mut block: Vec<T> = Vec::new();
    let mut r: usize = 0;
    while r < rows.len()
        invariant
            width == columns@.len(),
            0 <= r <= rows@.len(),
            block@.len() == r * width,
            forall|r: int, c: int|
                0 <= r < rows@.len() && 0 <= c < columns@.len() ==> #[trigger] rows@[r] * n
                    + #[trigger] columns@[c] < matrix@.len(),
            forall|i: int|
                0 <= i < block@.len() ==> #[trigger] block@[i] == matrix@[rows@[i / width as int] * n
                    + columns@[i % width as int]],
        decreases rows@.len() - r,
    {
        let row = rows[r];
        let mut c: usize = 0;
        while c < width
            invariant
                width == columns@.len(),
                0 <= r < rows@.len(),
                row == rows@[r as int],
                0 <= c <= width,
                block@.len() == r * width + c,
                forall|r: int, c: int|
                    0 <= r < rows@.len() && 0 <= c < columns@.len() ==> #[trigger] rows@[r] * n
                        + #[trigger] columns@[c] < matrix@.len(),
                forall|i: int|
                    0 <= i < block@.len() ==> #[trigger] block@[i] == matrix@[rows@[i / width as int]
                        * n + columns@[i % width as int]],
            decreases width - c,
        {
            let column = columns[c];
            let len = matrix.len();
            assert(row * n + column < len);
            let value = matrix[row * n + column];
            proof {
                lemma_block_position(r as int, c as int, width as int);
            }
            block.push(value);
            c = c + 1;
        }
        assert(block@.len() == (r + 1) * width) by (nonlinear_arith)
            requires
                block@.len() == r * width + width,
        ;
        r = r + 1;
    }
    assert(block@ =~= selected(matrix@, rows@, columns@, n as int));
    block
}

/// The entries of `vector` at `indices`, in that order.
pub fn select_vector<T: Copy>(vector: &[T], indices: &[usize]) -> (picked: Vec<T>)
    requires
        forall|i: int| 0 <= i < indices@.len() ==> #[trigger] indices@[i] < vector@.len(),
    ensures
        picked@ == indices@.map_values(|index: usize| vector@[index as int]),
{
    let mut picked: Vec<T> = Vec::new();
    let mut at: usize = 0;
    while at < indices.len()
        invariant
            0 <= at <= indices@.len(),
            forall|i: int| 0 <= i < indices@.len() ==> #[trigger] indices@[i] < vector@.len(),
            picked@ =~= indices@.subrange(0, at as int).map_values(
                |index: usize| vector@[index as int],
            ),
        decreases indices@.len() - at,
    {
        picked.push(vector[indices[at]]);
        at = at + 1;
    }
    assert(indices@.subrange(0, indices@.len() as int) =~= indices@);
    picked
}


/// The entries of `list` that `keep` accepts, each taken the first time it
/// appears.
pub open spec fn first_occurrences(list: Seq<usize>, keep: spec_fn(usize) -> bool) -> Seq<usize>
    decreases list.len(),
{
    if list.len() == 0 {
        Seq::empty()
    } else {
        let earlier = first_occurrences(list.drop_last(), keep);
        if keep(list.last()) && !earlier.contains(list.last()) {
            earlier.push(list.last())
        } else {
            earlier
        }
    }
}

/// The indices below `count` that `member` picks, ascending.
pub open spec fn picked(member: spec_fn(usize) -> bool, count: int) -> Seq<usize>
    decreases count,
{
    if count <= 0 {
        Seq::empty()
    } else {
        picked(member, count - 1) + if member((count - 1) as usize) {
            seq![(count - 1) as usize]
        } else {
            Seq::empty()
        }
    }
}

/// Where each unknown sits in `list`, or `usize::MAX` where it is not in it.
pub open spec fn local_index(list: Seq<usize>, global: usize) -> usize {
    if list.contains(global) {
        list.index_of(global) as usize
    } else {
        usize::MAX
    }
}

/// How an `n` unknown system is split for condensation onto `boundary`: the
/// internal unknowns, where every unknown sits in its own half, which
/// right-hand sides can ever change, and where the boundary block lies in the
/// full matrix.
pub struct BoundaryLayout {
    pub internal: Vec<usize>,
    /// Global unknown to boundary position, `usize::MAX` for an internal one.
    pub node_to_boundary: Vec<usize>,
    /// Global unknown to internal position, `usize::MAX` for a boundary one.
    pub internal_local_of_global: Vec<usize>,
    /// The internal unknowns whose right-hand side is active, each once.
    pub active_rhs_nodes: Vec<usize>,
    /// Their internal positions.
    pub active_internal_local: Vec<usize>,
    /// The boundary block's positions in the full matrix, row by row.
    pub boundary_matrix_slots: Vec<usize>,
}

/// A boundary the layout can be built for: not empty, smaller than the
/// system, in range and without repeats.
pub open spec fn usable_boundary(n: int, boundary: Seq<usize>) -> bool {
    &&& boundary.len() > 0
    &&& boundary.len() < n
    &&& forall|i: int| 0 <= i < boundary.len() ==> #[trigger] boundary[i] < n
    &&& boundary.no_duplicates()
}

impl BoundaryLayout {
    /// The split `new` makes of an `n` unknown system.
    pub open spec fn splits(self, n: int, boundary: Seq<usize>, active_rhs: Seq<usize>) -> bool {
        let internal = picked(|k: usize| !boundary.contains(k), n);
        &&& self.internal@ == internal
        &&& self.node_to_boundary@.len() == n
        &&& forall|k: int| 0 <= k < n ==> #[trigger] self.node_to_boundary@[k] == local_index(boundary, k as usize)
        &&& self.internal_local_of_global@.len() == n
        &&& forall|k: int|
            0 <= k < n ==> #[trigger] self.internal_local_of_global@[k] == local_index(internal, k as usize)
        &&& self.active_rhs_nodes@ == first_occurrences(
            active_rhs,
            |k: usize| k < n && !boundary.contains(k),
        )
        &&& self.active_internal_local@ == self.active_rhs_nodes@.map_values(
            |k: usize| local_index(internal, k),
        )
        &&& self.boundary_matrix_slots@ == Seq::new(
            boundary.len() * boundary.len(),
            |i: int| (boundary[i / boundary.len() as int] * n + boundary[i % boundary.len() as int]) as usize,
        )
    }

    /// Lays out the condensation of an `n` unknown system onto `boundary`, or
    /// `None` where the boundary cannot be used.
    #[verifier::loop_isolation(false)]
    pub fn new(n: usize, boundary: &[usize], active_rhs: &[usize]) -> (layout: Option<Self>)
        requires
            n * n <= usize::MAX,
        ensures
            layout is Some <==> usable_boundary(n as int, boundary@),
            layout matches Some(layout) ==> layout.splits(n as int, boundary@, active_rhs@),
    {
        if boundary.len() == 0 || boundary.len() >= n {
            return None;
        }
        let mut selected: Vec<bool> = Vec::new();
        while selected.len() < n
            invariant
                selected@.len() <= n,
                forall|k: int| 0 <= k < selected@.len() ==> !selected@[k],
            decreases n - selected@.len(),
        {
            selected.push(false);
        }
        let ghost nothing = Seq::<usize>::empty();
        assert(nothing + boundary@ =~= boundary@);
        if !mark_each(&mut selected, n, boundary, Ghost(nothing)) {
            return None;
        }
        let ghost member = |k: usize| !boundary@.contains(k);
        let ghost internal_spec = picked(member, n as int);
        // The internal unknowns, ascending.
        let mut internal: Vec<usize> = Vec::new();
        let mut k: usize = 0;
        while k < n
            invariant
                0 <= k <= n,
                selected@.len() == n,
                forall|j: usize| j < n ==> (selected@[j as int] <==> #[trigger] boundary@.contains(j)),
                internal@ == picked(member, k as int),
            decreases n - k,
        {
            proof {
                assert(member(k) == !selected@[k as int]);
            }
            if !selected[k] {
                internal.push(k);
            }
            proof {
                assert(internal@ =~= picked(member, k + 1));
            }
            k = k + 1;
        }
        proof {
            lemma_picked_facts(member, n as int);
            assert forall|j: usize| j < n implies (#[trigger] internal@.contains(j) <==> !boundary@.contains(j)) by {
                assert(member(j) == !boundary@.contains(j));
            }
            assert(n < usize::MAX) by (nonlinear_arith)
                requires
                    n * n <= usize::MAX,
                    n >= 2,
            ;
        }
        // Where each unknown sits in its own half.
        let node_to_boundary = positions(boundary, n);
        let internal_local_of_global = positions(internal.as_slice(), n);
        // The active right-hand sides that land on an internal unknown.
        let ghost keep = |g: usize| g < n && !boundary@.contains(g);
        let mut active_rhs_nodes: Vec<usize> = Vec::new();
        let mut active_internal_local: Vec<usize> = Vec::new();
        let mut a: usize = 0;
        while a < active_rhs.len()
            invariant
                0 <= a <= active_rhs@.len(),
                selected@.len() == n,
                forall|j: usize| j < n ==> (selected@[j as int] <==> #[trigger] boundary@.contains(j)),
                internal_local_of_global@.len() == n,
                forall|j: int|
                    0 <= j < n ==> #[trigger] internal_local_of_global@[j] == local_index(internal@, j as usize),
                forall|j: usize| j < n ==> (#[trigger] internal@.contains(j) <==> !boundary@.contains(j)),
                active_rhs_nodes@ == first_occurrences(active_rhs@.subrange(0, a as int), keep),
                active_internal_local@ == active_rhs_nodes@.map_values(|g: usize| local_index(internal@, g)),
            decreases active_rhs@.len() - a,
        {
            let global = active_rhs[a];
            let ghost prefix = active_rhs@.subrange(0, a as int);
            proof {
                assert(active_rhs@.subrange(0, a + 1).drop_last() =~= prefix);
                assert(active_rhs@.subrange(0, a + 1).last() == global);
                assert(keep(global) == (global < n && !boundary@.contains(global)));
            }
            if global < n {
                let local = internal_local_of_global[global];
                if local != usize::MAX && !holds(&active_rhs_nodes, global) {
                    proof {
                        if boundary@.contains(global) {
                            assert(!internal@.contains(global));
                        }
                    }
                    active_rhs_nodes.push(global);
                    active_internal_local.push(local);
                    proof {
                        assert(active_internal_local@ =~= active_rhs_nodes@.map_values(
                            |g: usize| local_index(internal@, g),
                        ));
                    }
                } else {
                    proof {
                        if !active_rhs_nodes@.contains(global) {
                            assert(!internal@.contains(global));
                        }
                    }
                }
            }
            a = a + 1;
        }
        assert(active_rhs@.subrange(0, active_rhs@.len() as int) =~= active_rhs@);
        // The boundary block's positions, row by row.
        let b = boundary.len();
        let mut boundary_matrix_slots: Vec<usize> = Vec::new();
        let mut r: usize = 0;
        while r < b
            invariant
                n * n <= usize::MAX,
                b == boundary@.len(),
                b < n,
                forall|i: int| 0 <= i < b ==> #[trigger] boundary@[i] < n,
                0 <= r <= b,
                boundary_matrix_slots@.len() == r * b,
                forall|i: int|
                    0 <= i < boundary_matrix_slots@.len() ==> #[trigger] boundary_matrix_slots@[i] == (boundary@[i
                        / b as int] * n + boundary@[i % b as int]) as usize,
            decreases b - r,
        {
            let row_node = boundary[r];
            let mut c: usize = 0;
            while c < b
                invariant
                    n * n <= usize::MAX,
                    b == boundary@.len(),
                    b < n,
                    forall|i: int| 0 <= i < b ==> #[trigger] boundary@[i] < n,
                    0 <= r < b,
                    row_node == boundary@[r as int],
                    0 <= c <= b,
                    boundary_matrix_slots@.len() == r * b + c,
                    forall|i: int|
                        0 <= i < boundary_matrix_slots@.len() ==> #[trigger] boundary_matrix_slots@[i] == (
                        boundary@[i / b as int] * n + boundary@[i % b as int]) as usize,
                decreases b - c,
            {
                let column_node = boundary[c];
                proof {
                    lemma_block_position(r as int, c as int, b as int);
                    assert(row_node * n + column_node < n * n) by (nonlinear_arith)
                        requires
                            row_node < n,
                            column_node < n,
                    ;
                }
                boundary_matrix_slots.push(row_node * n + column_node);
                c = c + 1;
            }
            assert(boundary_matrix_slots@.len() == (r + 1) * b) by (nonlinear_arith)
                requires
                    boundary_matrix_slots@.len() == r * b + b,
            ;
            r = r + 1;
        }
        assert(boundary_matrix_slots@ =~= Seq::new(
            boundary@.len() * boundary@.len(),
            |i: int| (boundary@[i / boundary@.len() as int] * n + boundary@[i % boundary@.len() as int]) as usize,
        ));
        Some(BoundaryLayout {
            internal,
            node_to_boundary,
            internal_local_of_global,
            active_rhs_nodes,
            active_internal_local,
            boundary_matrix_slots,
        })
    }
}

/// What `picked` holds: ascending, distinct, below `count`, and exactly the
/// members.
proof fn lemma_picked_facts(member: spec_fn(usize) -> bool, count: int)
    requires
        0 <= count <= usize::MAX,
    ensures
        picked(member, count).len() <= count,
        forall|i: int| 0 <= i < picked(member, count).len() ==> #[trigger] picked(member, count)[i] < count,
        picked(member, count).no_duplicates(),
        forall|j: usize| j < count ==> (#[trigger] picked(member, count).contains(j) <==> member(j)),
    decreases count,
{
    if count > 0 {
        lemma_picked_facts(member, count - 1);
        let earlier = picked(member, count - 1);
        let now = picked(member, count);
        let last = (count - 1) as usize;
        if member(last) {
            assert(now =~= earlier.push(last));
            if earlier.contains(last) {
                let i = choose|i: int| 0 <= i < earlier.len() && earlier[i] == last;
                assert(earlier[i] < count - 1);
            }
            assert forall|i: int, j: int| 0 <= i < now.len() && 0 <= j < now.len() && i != j implies now[i] != now[j] by {
                if i == earlier.len() {
                    assert(now[i] == last && now[j] == earlier[j] && earlier[j] < count - 1);
                } else if j == earlier.len() {
                    assert(now[j] == last && now[i] == earlier[i] && earlier[i] < count - 1);
                } else {
                    assert(now[i] == earlier[i] && now[j] == earlier[j]);
                }
            }
            assert forall|j: usize| j < count implies (#[trigger] now.contains(j) <==> member(j)) by {
                if now.contains(j) && j != last {
                    let at = choose|at: int| 0 <= at < now.len() && now[at] == j;
                    assert(earlier[at] == j);
                }
                if j < count - 1 && earlier.contains(j) {
                    let at = choose|at: int| 0 <= at < earlier.len() && earlier[at] == j;
                    assert(now[at] == j);
                }
                if j == last {
                    assert(now[earlier.len() as int] == j);
                }
            }
        } else {
            assert(now =~= earlier);
            assert forall|j: usize| j < count implies (#[trigger] now.contains(j) <==> member(j)) by {
                if j == last && now.contains(j) {
                    let at = choose|at: int| 0 <= at < now.len() && now[at] == j;
                }
            }
        }
    }
}

/// Where each unknown below `n` sits in `list`, `usize::MAX` where it is not
/// there.
fn positions(list: &[usize], n: usize) -> (at: Vec<usize>)
    requires
        forall|i: int| 0 <= i < list@.len() ==> #[trigger] list@[i] < n,
        list@.no_duplicates(),
        list@.len() < usize::MAX,
    ensures
        at@.len() == n,
        forall|k: int| 0 <= k < n ==> #[trigger] at@[k] == local_index(list@, k as usize),
{
    let mut at: Vec<usize> = Vec::new();
    while at.len() < n
        invariant
            at@.len() <= n,
            forall|k: int| 0 <= k < at@.len() ==> at@[k] == usize::MAX,
        decreases n - at@.len(),
    {
        at.push(usize::MAX);
    }
    let mut local: usize = 0;
    while local < list.len()
        invariant
            forall|i: int| 0 <= i < list@.len() ==> #[trigger] list@[i] < n,
            list@.no_duplicates(),
            0 <= local <= list@.len(),
            at@.len() == n,
            forall|k: int|
                0 <= k < n ==> #[trigger] at@[k] == if list@.subrange(0, local as int).contains(k as usize) {
                    list@.index_of(k as usize) as usize
                } else {
                    usize::MAX
                },
        decreases list@.len() - local,
    {
        let global = list[local];
        at.set(global, local);
        proof {
            assert forall|k: int| 0 <= k < n implies #[trigger] at@[k] == if list@.subrange(0, local + 1).contains(k as usize) {
                list@.index_of(k as usize) as usize
            } else {
                usize::MAX
            } by {
                let longer = list@.subrange(0, local + 1);
                let shorter = list@.subrange(0, local as int);
                assert(longer =~= shorter.push(global));
                if k as usize == global {
                    assert(longer[local as int] == global);
                    let other = list@.index_of(global);
                    assert(list@[local as int] == global);
                    assert(other == local as int);
                } else {
                    if longer.contains(k as usize) {
                        let i = choose|i: int| 0 <= i < longer.len() && longer[i] == k as usize;
                        assert(shorter[i] == k as usize);
                    }
                    if shorter.contains(k as usize) {
                        let i = choose|i: int| 0 <= i < shorter.len() && shorter[i] == k as usize;
                        assert(longer[i] == k as usize);
                    }
                }
            }
        }
        local = local + 1;
    }
    proof {
        assert(list@.subrange(0, list@.len() as int) =~= list@);
        assert forall|k: int| 0 <= k < n implies #[trigger] at@[k] == local_index(list@, k as usize) by {
            if list@.contains(k as usize) {
                let i = list@.index_of(k as usize);
            }
        }
    }
    at
}

/// Which half is called internal does not matter: `internal` then `boundary`
/// is a partition exactly when `boundary` then `internal` is.
pub proof fn partition_ignores_order(n: int, internal: Seq<usize>, boundary: Seq<usize>)
    ensures
        is_permutation_of(internal + boundary, n) == is_permutation_of(boundary + internal, n),
{
    if is_permutation_of(internal + boundary, n) {
        lemma_swapped_permutation(n, internal, boundary);
    }
    if is_permutation_of(boundary + internal, n) {
        lemma_swapped_permutation(n, boundary, internal);
    }
}

proof fn lemma_swapped_permutation(n: int, first: Seq<usize>, second: Seq<usize>)
    requires
        is_permutation_of(first + second, n),
    ensures
        is_permutation_of(second + first, n),
{
    let a = first + second;
    let b = second + first;
    assert forall|i: int| 0 <= i < b.len() implies b[i] < n by {
        if i < second.len() {
            assert(b[i] == a[first.len() + i]);
        } else {
            assert(b[i] == a[i - second.len()]);
        }
    }
    assert forall|i: int, j: int| 0 <= i < b.len() && 0 <= j < b.len() && i != j implies b[i] != b[j] by {
        let ai = if i < second.len() { first.len() + i } else { i - second.len() };
        let aj = if j < second.len() { first.len() + j } else { j - second.len() };
        assert(b[i] == a[ai] && b[j] == a[aj]);
    }
    assert forall|k: usize| k < n implies #[trigger] b.contains(k) by {
        assert(a.contains(k));
        let i = choose|i: int| 0 <= i < a.len() && a[i] == k;
        if i < first.len() {
            assert(b[second.len() + i] == k);
        } else {
            assert(b[i - first.len()] == k);
        }
    }
}

/// Taking a delta undoes accumulation: what accumulated between a snapshot
/// and a later one, added back to the snapshot, is the later one; and nothing
/// accumulates between a snapshot and itself.
pub proof fn delta_undoes_accumulation(after: ReducedSolveProfile, before: ReducedSolveProfile)
    requires
        before.dense_solve_ns <= after.dense_solve_ns,
        before.recovery_ns <= after.recovery_ns,
        before.calls <= after.calls,
    ensures
        before.dense_solve_ns + saturating_difference(after.dense_solve_ns, before.dense_solve_ns)
            == after.dense_solve_ns,
        before.recovery_ns + saturating_difference(after.recovery_ns, before.recovery_ns)
            == after.recovery_ns,
        before.calls + saturating_difference(after.calls, before.calls) == after.calls,
        saturating_difference(after.calls, after.calls) == 0,
        saturating_difference(after.dense_solve_ns, after.dense_solve_ns) == 0,
        saturating_difference(after.recovery_ns, after.recovery_ns) == 0,
{
}

} // verus!
