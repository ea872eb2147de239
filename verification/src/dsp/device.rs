//! Which matrix positions the parts that bend can write to.
//!
//! The solver needs a circuit's structure -- which entries of its matrix can
//! ever be nonzero -- before it has any values to look at. The positions a part
//! stamps are fixed by the nodes it is wired between, so each device declares
//! them through a [`Mark`], which does the same ground-skipping arithmetic as
//! the stamping itself.

use vstd::prelude::*;
use crate::dsp::netlist::GROUND;

verus! {

/// Position of entry `(row, col)` in a row-major `n`-wide matrix.
pub open spec fn cell(n: int, row: int, col: int) -> int {
    row * n + col
}

/// A node that is a row of the matrix, rather than the reference.
pub open spec fn live(node: int) -> bool {
    node != GROUND as int
}

/// The positions a conductance between `a` and `b` occupies: both diagonals,
/// and both off-diagonals when neither end is ground.
pub open spec fn conductance_cells(n: int, a: int, b: int) -> Set<int> {
    Set::new(
        |i: int|
            (live(a) && i == cell(n, a, a)) || (live(b) && i == cell(n, b, b)) || (live(a) && live(
                b,
            ) && (i == cell(n, a, b) || i == cell(n, b, a))),
    )
}

/// The positions a current between `a` and `b` controlled by the voltage
/// between `c` and `d` occupies: rows `a` and `b`, columns `c` and `d`, ground
/// skipped on either side.
pub open spec fn transconductance_cells(n: int, a: int, b: int, c: int, d: int) -> Set<int> {
    Set::new(
        |i: int|
            exists|row: int, col: int|
                (row == a || row == b) && (col == c || col == d) && live(row) && live(col) && i
                    == #[trigger] cell(n, row, col),
    )
}

/// The one position tying a node's row to a branch's current, unless the node
/// is ground.
pub open spec fn branch_current_cells(n: int, node: int, branch: int) -> Set<int> {
    Set::new(|i: int| live(node) && i == cell(n, node, branch))
}

/// The one position of a branch's own row that a node's voltage enters, unless
/// the node is ground.
pub open spec fn branch_constraint_cells(n: int, branch: int, node: int) -> Set<int> {
    Set::new(|i: int| live(node) && i == cell(n, branch, node))
}

/// Every position lies inside a pattern of `len` entries.
pub open spec fn fits(cells: Set<int>, len: int) -> bool {
    forall|i: int| cells.contains(i) ==> 0 <= i < len
}

/// `pattern` with every position of `cells` marked, and nothing else changed.
pub open spec fn marked(pattern: Seq<bool>, cells: Set<int>) -> Seq<bool> {
    Seq::new(pattern.len(), |i: int| pattern[i] || cells.contains(i))
}

/// Which matrix positions a device can write to, in any of its states.
///
/// `pattern` is the `n` by `n` matrix, row-major, with `true` wherever some
/// part may stamp. The methods mirror the stamper's one for one and skip
/// ground in the same way. A device with more than one state declares the
/// union over all of them.
pub struct Mark<'a> {
    pub pattern: &'a mut [bool],
    pub n: usize,
}

impl Mark<'_> {
    fn set(&mut self, row: usize, col: usize)
        requires
            row * old(self).n + col < old(self).pattern@.len(),
        ensures
            final(self).n == old(self).n,
            final(self).pattern@ == old(self).pattern@.update(row * old(self).n + col, true),
    {
        let n = self.n;
        let len = self.pattern.len();
        assert(row * n + col < len);
        self.pattern[row * n + col] = true;
    }

    /// A conductance between `a` and `b`.
    pub fn conductance(&mut self, a: usize, b: usize)
        requires
            fits(conductance_cells(old(self).n as int, a as int, b as int), old(self).pattern@.len() as int),
        ensures
            final(self).n == old(self).n,
            final(self).pattern@ == marked(
                old(self).pattern@,
                conductance_cells(old(self).n as int, a as int, b as int),
            ),
    {
        let ghost n = self.n as int;
        let ghost cells = conductance_cells(n, a as int, b as int);
        if a != GROUND {
            assert(cells.contains(cell(n, a as int, a as int)));
            self.set(a, a);
        }
        if b != GROUND {
            assert(cells.contains(cell(n, b as int, b as int)));
            self.set(b, b);
        }
        if a != GROUND && b != GROUND {
            assert(cells.contains(cell(n, a as int, b as int)));
            assert(cells.contains(cell(n, b as int, a as int)));
            self.set(a, b);
            self.set(b, a);
        }
        assert(self.pattern@ =~= marked(old(self).pattern@, cells));
    }

    /// A current between `a` and `b` controlled by the voltage between `c` and
    /// `d`.
    pub fn transconductance(&mut self, a: usize, b: usize, c: usize, d: usize)
        requires
            fits(
                transconductance_cells(old(self).n as int, a as int, b as int, c as int, d as int),
                old(self).pattern@.len() as int,
            ),
        ensures
            final(self).n == old(self).n,
            final(self).pattern@ == marked(
                old(self).pattern@,
                transconductance_cells(old(self).n as int, a as int, b as int, c as int, d as int),
            ),
    {
        let ghost n = self.n as int;
        let ghost cells = transconductance_cells(n, a as int, b as int, c as int, d as int);
        // Row `a` carries the current out, row `b` brings it back.
        if a != GROUND {
            if c != GROUND {
                assert(cells.contains(cell(n, a as int, c as int)));
                self.set(a, c);
            }
            if d != GROUND {
                assert(cells.contains(cell(n, a as int, d as int)));
                self.set(a, d);
            }
        }
        if b != GROUND {
            if c != GROUND {
                assert(cells.contains(cell(n, b as int, c as int)));
                self.set(b, c);
            }
            if d != GROUND {
                assert(cells.contains(cell(n, b as int, d as int)));
                self.set(b, d);
            }
        }
        assert(self.pattern@ =~= marked(old(self).pattern@, cells));
    }

    /// Ties a node to a branch's current.
    pub fn branch_current(&mut self, node: usize, branch: usize)
        requires
            fits(
                branch_current_cells(old(self).n as int, node as int, branch as int),
                old(self).pattern@.len() as int,
            ),
        ensures
            final(self).n == old(self).n,
            final(self).pattern@ == marked(
                old(self).pattern@,
                branch_current_cells(old(self).n as int, node as int, branch as int),
            ),
    {
        let ghost cells = branch_current_cells(self.n as int, node as int, branch as int);
        if node != GROUND {
            assert(cells.contains(cell(self.n as int, node as int, branch as int)));
            self.set(node, branch);
        }
        assert(self.pattern@ =~= marked(old(self).pattern@, cells));
    }

    /// One term of a branch's own row.
    pub fn branch_constraint(&mut self, branch: usize, node: usize)
        requires
            fits(
                branch_constraint_cells(old(self).n as int, branch as int, node as int),
                old(self).pattern@.len() as int,
            ),
        ensures
            final(self).n == old(self).n,
            final(self).pattern@ == marked(
                old(self).pattern@,
                branch_constraint_cells(old(self).n as int, branch as int, node as int),
            ),
    {
        let ghost cells = branch_constraint_cells(self.n as int, branch as int, node as int);
        if node != GROUND {
            assert(cells.contains(cell(self.n as int, branch as int, node as int)));
            self.set(branch, node);
        }
        assert(self.pattern@ =~= marked(old(self).pattern@, cells));
    }
}


/// Marking two sets one after the other marks their union.
proof fn lemma_marked_twice(pattern: Seq<bool>, first: Set<int>, second: Set<int>)
    ensures
        marked(marked(pattern, first), second) == marked(pattern, first.union(second)),
{
    assert(marked(marked(pattern, first), second) =~= marked(pattern, first.union(second)));
}

/// A union fits exactly when both of its halves do.
proof fn lemma_fits_union(first: Set<int>, second: Set<int>, len: int)
    ensures
        fits(first.union(second), len) <==> fits(first, len) && fits(second, len),
{
    if fits(first.union(second), len) {
        assert forall|i: int| first.contains(i) implies 0 <= i < len by {
            assert(first.union(second).contains(i));
        }
        assert forall|i: int| second.contains(i) implies 0 <= i < len by {
            assert(first.union(second).contains(i));
        }
    }
}

/// What a nonlinear device is wired to, which is all its footprint depends on.
#[derive(Clone, Copy, Debug)]
pub enum Terminals {
    /// A diode, a rectifier, a core or a variable resistor: a conductance
    /// between two nodes.
    Pair { a: usize, b: usize },
    /// Plate, grid, cathode.
    Triode { p: usize, g: usize, k: usize },
    /// Plate, grid, cathode, screen.
    Pentode { p: usize, g: usize, k: usize, s: usize },
    /// An op-amp and the branch row it carries its output current on.
    OpAmp { out: usize, plus: usize, minus: usize, reference: usize, branch: usize },
    /// Drain, gate, source.
    Jfet { d: usize, g: usize, s: usize },
    /// Collector, base, emitter, and which polarity.
    Bipolar { c: usize, b: usize, e: usize, pnp: bool },
    /// A current into `out` against `reference`, set by `plus` against `minus`.
    Transconductor { plus: usize, minus: usize, out: usize, reference: usize },
}

impl Terminals {
    /// Every matrix position the device can stamp, in any of its states.
    pub open spec fn footprint_cells(self, n: int) -> Set<int> {
        match self {
            Terminals::Pair { a, b } => conductance_cells(n, a as int, b as int),
            Terminals::Triode { p, g, k } => conductance_cells(n, p as int, k as int).union(
                transconductance_cells(n, p as int, k as int, g as int, k as int),
            ).union(conductance_cells(n, g as int, k as int)),
            Terminals::Pentode { p, g, k, s } => conductance_cells(n, p as int, k as int).union(
                transconductance_cells(n, p as int, k as int, g as int, k as int),
            ).union(transconductance_cells(n, p as int, k as int, s as int, k as int)).union(
                conductance_cells(n, s as int, k as int),
            ).union(transconductance_cells(n, s as int, k as int, g as int, k as int)).union(
                conductance_cells(n, g as int, k as int),
            ),
            Terminals::OpAmp { out, plus, minus, reference, branch } => branch_current_cells(
                n,
                out as int,
                branch as int,
            ).union(branch_constraint_cells(n, branch as int, plus as int)).union(
                branch_constraint_cells(n, branch as int, minus as int),
            ).union(branch_constraint_cells(n, branch as int, out as int)).union(
                branch_constraint_cells(n, branch as int, reference as int),
            ),
            Terminals::Jfet { d, g, s } => conductance_cells(n, d as int, s as int).union(
                transconductance_cells(n, d as int, s as int, g as int, s as int),
            ),
            Terminals::Bipolar { c, b, e, pnp } => if pnp {
                transconductance_cells(n, e as int, c as int, e as int, b as int).union(
                    transconductance_cells(n, e as int, c as int, c as int, b as int),
                ).union(transconductance_cells(n, e as int, b as int, e as int, b as int)).union(
                    transconductance_cells(n, e as int, b as int, c as int, b as int),
                )
            } else {
                transconductance_cells(n, c as int, e as int, b as int, e as int).union(
                    transconductance_cells(n, c as int, e as int, b as int, c as int),
                ).union(transconductance_cells(n, b as int, e as int, b as int, e as int)).union(
                    transconductance_cells(n, b as int, e as int, b as int, c as int),
                )
            },
            Terminals::Transconductor { plus, minus, out, reference } => transconductance_cells(
                n,
                reference as int,
                out as int,
                plus as int,
                minus as int,
            ),
        }
    }

    /// Declares every position the device can write to, over all of its
    /// states. An op-amp constrains its inputs together while it is linear
    /// and its output against a rail, and both sets are declared.
    pub fn footprint(&self, m: &mut Mark)
        requires
            fits(self.footprint_cells(old(m).n as int), old(m).pattern@.len() as int),
        ensures
            final(m).n == old(m).n,
            final(m).pattern@ == marked(old(m).pattern@, self.footprint_cells(old(m).n as int)),
    {
        let ghost n = m.n as int;
        let ghost start = m.pattern@;
        match *self {
            Terminals::Pair { a, b } => {
                m.conductance(a, b);
            },
            Terminals::Triode { p, g, k } => {
                let ghost c1 = conductance_cells(n, p as int, k as int);
                let ghost c2 = transconductance_cells(n, p as int, k as int, g as int, k as int);
                let ghost c3 = conductance_cells(n, g as int, k as int);
                proof {
                    lemma_fits_union(c1.union(c2), c3, start.len() as int);
                    lemma_fits_union(c1, c2, start.len() as int);
                }
                m.conductance(p, k);
                m.transconductance(p, k, g, k);
                m.conductance(g, k);
                proof {
                    lemma_marked_twice(start, c1, c2);
                    lemma_marked_twice(start, c1.union(c2), c3);
                }
            },
            Terminals::Pentode { p, g, k, s } => {
                let ghost c1 = conductance_cells(n, p as int, k as int);
                let ghost c2 = transconductance_cells(n, p as int, k as int, g as int, k as int);
                let ghost c3 = transconductance_cells(n, p as int, k as int, s as int, k as int);
                let ghost c4 = conductance_cells(n, s as int, k as int);
                let ghost c5 = transconductance_cells(n, s as int, k as int, g as int, k as int);
                let ghost c6 = conductance_cells(n, g as int, k as int);
                proof {
                    lemma_fits_union(c1.union(c2).union(c3).union(c4).union(c5), c6, start.len() as int);
                    lemma_fits_union(c1.union(c2).union(c3).union(c4), c5, start.len() as int);
                    lemma_fits_union(c1.union(c2).union(c3), c4, start.len() as int);
                    lemma_fits_union(c1.union(c2), c3, start.len() as int);
                    lemma_fits_union(c1, c2, start.len() as int);
                }
                m.conductance(p, k);
                m.transconductance(p, k, g, k);
                m.transconductance(p, k, s, k);
                m.conductance(s, k);
                m.transconductance(s, k, g, k);
                m.conductance(g, k);
                proof {
                    lemma_marked_twice(start, c1, c2);
                    lemma_marked_twice(start, c1.union(c2), c3);
                    lemma_marked_twice(start, c1.union(c2).union(c3), c4);
                    lemma_marked_twice(start, c1.union(c2).union(c3).union(c4), c5);
                    lemma_marked_twice(start, c1.union(c2).union(c3).union(c4).union(c5), c6);
                }
            },
            Terminals::OpAmp { out, plus, minus, reference, branch } => {
                let ghost c1 = branch_current_cells(n, out as int, branch as int);
                let ghost c2 = branch_constraint_cells(n, branch as int, plus as int);
                let ghost c3 = branch_constraint_cells(n, branch as int, minus as int);
                let ghost c4 = branch_constraint_cells(n, branch as int, out as int);
                let ghost c5 = branch_constraint_cells(n, branch as int, reference as int);
                proof {
                    lemma_fits_union(c1.union(c2).union(c3).union(c4), c5, start.len() as int);
                    lemma_fits_union(c1.union(c2).union(c3), c4, start.len() as int);
                    lemma_fits_union(c1.union(c2), c3, start.len() as int);
                    lemma_fits_union(c1, c2, start.len() as int);
                }
                m.branch_current(out, branch);
                m.branch_constraint(branch, plus);
                m.branch_constraint(branch, minus);
                m.branch_constraint(branch, out);
                m.branch_constraint(branch, reference);
                proof {
                    lemma_marked_twice(start, c1, c2);
                    lemma_marked_twice(start, c1.union(c2), c3);
                    lemma_marked_twice(start, c1.union(c2).union(c3), c4);
                    lemma_marked_twice(start, c1.union(c2).union(c3).union(c4), c5);
                }
            },
            Terminals::Jfet { d, g, s } => {
                let ghost c1 = conductance_cells(n, d as int, s as int);
                let ghost c2 = transconductance_cells(n, d as int, s as int, g as int, s as int);
                proof {
                    lemma_fits_union(c1, c2, start.len() as int);
                }
                m.conductance(d, s);
                m.transconductance(d, s, g, s);
                proof {
                    lemma_marked_twice(start, c1, c2);
                }
            },
            Terminals::Bipolar { c, b, e, pnp } => {
                if pnp {
                    let ghost c1 = transconductance_cells(n, e as int, c as int, e as int, b as int);
                    let ghost c2 = transconductance_cells(n, e as int, c as int, c as int, b as int);
                    let ghost c3 = transconductance_cells(n, e as int, b as int, e as int, b as int);
                    let ghost c4 = transconductance_cells(n, e as int, b as int, c as int, b as int);
                    proof {
                        lemma_fits_union(c1.union(c2).union(c3), c4, start.len() as int);
                        lemma_fits_union(c1.union(c2), c3, start.len() as int);
                        lemma_fits_union(c1, c2, start.len() as int);
                    }
                    m.transconductance(e, c, e, b);
                    m.transconductance(e, c, c, b);
                    m.transconductance(e, b, e, b);
                    m.transconductance(e, b, c, b);
                    proof {
                        lemma_marked_twice(start, c1, c2);
                        lemma_marked_twice(start, c1.union(c2), c3);
                        lemma_marked_twice(start, c1.union(c2).union(c3), c4);
                    }
                } else {
                    let ghost c1 = transconductance_cells(n, c as int, e as int, b as int, e as int);
                    let ghost c2 = transconductance_cells(n, c as int, e as int, b as int, c as int);
                    let ghost c3 = transconductance_cells(n, b as int, e as int, b as int, e as int);
                    let ghost c4 = transconductance_cells(n, b as int, e as int, b as int, c as int);
                    proof {
                        lemma_fits_union(c1.union(c2).union(c3), c4, start.len() as int);
                        lemma_fits_union(c1.union(c2), c3, start.len() as int);
                        lemma_fits_union(c1, c2, start.len() as int);
                    }
                    m.transconductance(c, e, b, e);
                    m.transconductance(c, e, b, c);
                    m.transconductance(b, e, b, e);
                    m.transconductance(b, e, b, c);
                    proof {
                        lemma_marked_twice(start, c1, c2);
                        lemma_marked_twice(start, c1.union(c2), c3);
                        lemma_marked_twice(start, c1.union(c2).union(c3), c4);
                    }
                }
            },
            Terminals::Transconductor { plus, minus, out, reference } => {
                m.transconductance(reference, out, plus, minus);
            },
        }
    }
}


/// One call a device's stamp makes on the stamper, by the unknowns it names.
pub enum StampCall {
    /// A conductance between `a` and `b`.
    Conductance { a: usize, b: usize },
    /// A current between `a` and `b` set by the voltage between `c` and `d`.
    Transconductance { a: usize, b: usize, c: usize, d: usize },
    /// A node's row taking a branch's current.
    BranchCurrent { node: usize, branch: usize },
    /// A node's voltage entering a branch's own row.
    BranchConstraint { branch: usize, node: usize },
}

/// Whether a stamper call writes entry `(row, col)` of the matrix. The
/// stamper writes nothing in a row or a column that is the reference: a
/// conductance writes the four entries among its two ends, a
/// transconductance its two rows against its two controls, and a branch term
/// the one entry it names.
pub open spec fn writes(call: StampCall, row: int, col: int) -> bool {
    &&& live(row)
    &&& live(col)
    &&& match call {
        StampCall::Conductance { a, b } => (row == a || row == b) && (col == a || col == b),
        StampCall::Transconductance { a, b, c, d } => (row == a || row == b) && (col == c || col == d),
        StampCall::BranchCurrent { node, branch } => row == node && col == branch,
        StampCall::BranchConstraint { branch, node } => row == branch && col == node,
    }
}

impl Terminals {
    /// The calls the device's stamp makes in one of its states. Only an
    /// op-amp has two: linear, it holds its inputs together; `railed`, it
    /// holds its output to a rail measured from its reference.
    pub open spec fn stamp_calls(self, railed: bool) -> Seq<StampCall> {
        match self {
            Terminals::Pair { a, b } => seq![StampCall::Conductance { a, b }],
            Terminals::Triode { p, g, k } => seq![
                StampCall::Conductance { a: p, b: k },
                StampCall::Transconductance { a: p, b: k, c: g, d: k },
                StampCall::Conductance { a: g, b: k },
            ],
            Terminals::Pentode { p, g, k, s } => seq![
                StampCall::Conductance { a: p, b: k },
                StampCall::Transconductance { a: p, b: k, c: g, d: k },
                StampCall::Transconductance { a: p, b: k, c: s, d: k },
                StampCall::Conductance { a: s, b: k },
                StampCall::Transconductance { a: s, b: k, c: g, d: k },
                StampCall::Conductance { a: g, b: k },
            ],
            Terminals::OpAmp { out, plus, minus, reference, branch } => if railed {
                seq![
                    StampCall::BranchCurrent { node: out, branch },
                    StampCall::BranchConstraint { branch, node: out },
                    StampCall::BranchConstraint { branch, node: reference },
                ]
            } else {
                seq![
                    StampCall::BranchCurrent { node: out, branch },
                    StampCall::BranchConstraint { branch, node: plus },
                    StampCall::BranchConstraint { branch, node: minus },
                ]
            },
            Terminals::Jfet { d, g, s } => seq![
                StampCall::Conductance { a: d, b: s },
                StampCall::Transconductance { a: d, b: s, c: g, d: s },
            ],
            Terminals::Bipolar { c, b, e, pnp } => if pnp {
                seq![
                    StampCall::Transconductance { a: e, b: c, c: e, d: b },
                    StampCall::Transconductance { a: e, b: c, c: c, d: b },
                    StampCall::Transconductance { a: e, b: b, c: e, d: b },
                    StampCall::Transconductance { a: e, b: b, c: c, d: b },
                ]
            } else {
                seq![
                    StampCall::Transconductance { a: c, b: e, c: b, d: e },
                    StampCall::Transconductance { a: c, b: e, c: b, d: c },
                    StampCall::Transconductance { a: b, b: e, c: b, d: e },
                    StampCall::Transconductance { a: b, b: e, c: b, d: c },
                ]
            },
            Terminals::Transconductor { plus, minus, out, reference } => seq![
                StampCall::Transconductance { a: reference, b: out, c: plus, d: minus },
            ],
        }
    }
}

/// The footprint covers the stamp: whatever state a device is in, every
/// entry any of its stamper calls writes is among the positions it declares,
/// so a pattern built from footprints never misses an entry the solver
/// fills.
pub proof fn every_stamp_lands_in_the_footprint(
    device: Terminals,
    n: int,
    railed: bool,
    j: int,
    row: int,
    col: int,
)
    requires
        0 <= j < device.stamp_calls(railed).len(),
        writes(device.stamp_calls(railed)[j], row, col),
    ensures
        device.footprint_cells(n).contains(cell(n, row, col)),
{
    let call = device.stamp_calls(railed)[j];
    let at = cell(n, row, col);
    if let StampCall::Transconductance { a, b, c, d } = call {
        assert(transconductance_cells(n, a as int, b as int, c as int, d as int).contains(at));
    }
    if let StampCall::Conductance { a, b } = call {
        assert(conductance_cells(n, a as int, b as int).contains(at));
    }
}

/// Declaring positions accumulates: marking one set and then another is
/// marking their union, whichever comes first, and marking a set again
/// changes nothing. That is what lets a device with several states declare
/// each of them in turn.
pub proof fn marking_is_a_union(pattern: Seq<bool>, first: Set<int>, second: Set<int>)
    ensures
        marked(marked(pattern, first), second) == marked(pattern, first.union(second)),
        marked(marked(pattern, first), second) == marked(marked(pattern, second), first),
        marked(marked(pattern, first), first) == marked(pattern, first),
{
    lemma_marked_twice(pattern, first, second);
    lemma_marked_twice(pattern, second, first);
    assert(first.union(second) =~= second.union(first));
    lemma_marked_twice(pattern, first, first);
    assert(first.union(first) =~= first);
}

/// Two entries of an `n`-wide matrix share a position only if they are the
/// same entry.
proof fn lemma_cell_unique(n: int, r1: int, c1: int, r2: int, c2: int)
    requires
        0 <= r1 < n,
        0 <= c1 < n,
        0 <= r2 < n,
        0 <= c2 < n,
        cell(n, r1, c1) == cell(n, r2, c2),
    ensures
        r1 == r2,
        c1 == c2,
{
    vstd::arithmetic::div_mod::lemma_fundamental_div_mod_converse(cell(n, r1, c1), n, r1, c1);
    vstd::arithmetic::div_mod::lemma_fundamental_div_mod_converse(cell(n, r2, c2), n, r2, c2);
}

/// A conductance keeps the pattern symmetric: it occupies `(row, col)`
/// exactly when it occupies `(col, row)`, and it does not matter which end is
/// named first.
pub proof fn conductance_is_symmetric(n: int, a: int, b: int, row: int, col: int)
    requires
        !live(a) || 0 <= a < n,
        !live(b) || 0 <= b < n,
        0 <= row < n,
        0 <= col < n,
    ensures
        conductance_cells(n, a, b) == conductance_cells(n, b, a),
        conductance_cells(n, a, b).contains(cell(n, row, col)) <==> conductance_cells(n, a, b).contains(
            cell(n, col, row),
        ),
{
    assert(conductance_cells(n, a, b) =~= conductance_cells(n, b, a));
    let cells = conductance_cells(n, a, b);
    if cells.contains(cell(n, row, col)) {
        if live(a) && cell(n, row, col) == cell(n, a, a) {
            lemma_cell_unique(n, row, col, a, a);
        } else if live(b) && cell(n, row, col) == cell(n, b, b) {
            lemma_cell_unique(n, row, col, b, b);
        } else if live(a) && live(b) && cell(n, row, col) == cell(n, a, b) {
            lemma_cell_unique(n, row, col, a, b);
        } else {
            lemma_cell_unique(n, row, col, b, a);
        }
    }
    if cells.contains(cell(n, col, row)) {
        if live(a) && cell(n, col, row) == cell(n, a, a) {
            lemma_cell_unique(n, col, row, a, a);
        } else if live(b) && cell(n, col, row) == cell(n, b, b) {
            lemma_cell_unique(n, col, row, b, b);
        } else if live(a) && live(b) && cell(n, col, row) == cell(n, a, b) {
            lemma_cell_unique(n, col, row, a, b);
        } else {
            lemma_cell_unique(n, col, row, b, a);
        }
    }
}


/// Where a stamp aimed at a global unknown lands.
#[derive(Clone, Copy, Debug, PartialEq, Eq, Structural)]
pub enum Landing {
    /// The reference: nothing is written.
    Ground,
    /// This row or column of the matrix being stamped.
    Row(usize),
    /// A compact system has no place for it, so the stamp cannot be made
    /// there and the caller must fall back to the full one.
    Unmapped,
}

/// Where unknown `node` lands: ground nowhere; in a full system at itself;
/// through a global-to-compact `map` at its compact position, where that is
/// below `limit`. An unknown the map does not cover, or sends to
/// `usize::MAX`, is unmapped.
pub open spec fn landing_of(node: usize, map: Option<Seq<usize>>, limit: usize) -> Landing {
    if node == GROUND {
        Landing::Ground
    } else {
        match map {
            None => Landing::Row(node),
            Some(map) => {
                let local = if node < map.len() {
                    map[node as int]
                } else {
                    usize::MAX
                };
                if local == usize::MAX || local >= limit {
                    Landing::Unmapped
                } else {
                    Landing::Row(local)
                }
            },
        }
    }
}

/// Where a stamp aimed at unknown `node` lands. A full-system stamp has no
/// map; a condensed one maps each global unknown to its place in the
/// boundary system, and `limit` is how many places that system has.
pub fn land(node: usize, map: Option<&[usize]>, limit: usize) -> (landing: Landing)
    ensures
        landing == landing_of(
            node,
            match map {
                Some(map) => Some(map@),
                None => None,
            },
            limit,
        ),
{
    if node == GROUND {
        return Landing::Ground;
    }
    match map {
        None => Landing::Row(node),
        Some(map) => {
            let local = if node < map.len() {
                map[node]
            } else {
                usize::MAX
            };
            if local == usize::MAX || local >= limit {
                Landing::Unmapped
            } else {
                Landing::Row(local)
            }
        },
    }
}

} // verus!
