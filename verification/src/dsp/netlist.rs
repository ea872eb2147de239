//! A circuit, described by name.
//!
//! Nodes are named and numbered here rather than by hand: `node("plate")`
//! returns the same index every time it is asked for that name, `ground()` is
//! always the reference, and [`Netlist::build`] checks the result before
//! anything downstream can trust it. A node nobody connected would leave an
//! empty row in the matrix, so the builder refuses to make one.
//!
//! This is the circuit's *topology*: which part touches which node. What each
//! part is worth is carried beside it by whoever fills the matrix; all the
//! topology needs to know of a value is whether it can be stamped at all.

use vstd::prelude::*;
use crate::dsp::partition::is_permutation_of;

verus! {

/// The reference node. Never appears in the matrix.
pub const GROUND: usize = usize::MAX;

/// One part, by the nodes it is wired between.
#[derive(Clone, Copy, Debug, PartialEq, Eq)]
pub enum Part {
    Resistor { a: usize, b: usize },
    Capacitor { a: usize, b: usize },
    Inductor { a: usize, b: usize },
    /// A potentiometer as the two halves of its track, turned by `control`.
    Pot { a: usize, wiper: usize, b: usize, control: usize },
    /// Where the signal arrives.
    Input { node: usize },
    /// A supply rail, as a Norton source.
    Supply { node: usize },
    Diode { a: usize, k: usize },
    /// Plate, grid, cathode.
    Triode { p: usize, g: usize, k: usize },
    /// Plate, grid, cathode and screen.
    Pentode { p: usize, g: usize, k: usize, s: usize },
    /// An op-amp, its rails measured from `reference`.
    OpAmp { out: usize, plus: usize, minus: usize, reference: usize },
    /// An ideal transformer, primary `p1`-`p2`, secondary `s1`-`s2`.
    Transformer { p1: usize, p2: usize, s1: usize, s2: usize },
    /// Drain, gate, source.
    Jfet { d: usize, g: usize, s: usize },
    /// A transformer's magnetising branch.
    Core { a: usize, b: usize },
    /// Collector, base, emitter.
    Bipolar { c: usize, b: usize, e: usize },
}

/// A node's index after a renumbering; ground stays ground.
pub open spec fn moved(node: usize, to: Seq<usize>) -> usize {
    if node == GROUND {
        GROUND
    } else {
        to[node as int]
    }
}

impl Part {
    /// Every node this part touches, ground included, in the order
    /// [`Part::touches`] lists them.
    pub open spec fn pins(self) -> Seq<usize> {
        match self {
            Part::Resistor { a, b } => seq![a, b],
            Part::Capacitor { a, b } => seq![a, b],
            Part::Inductor { a, b } => seq![a, b],
            Part::Pot { a, wiper, b, .. } => seq![a, wiper, b],
            Part::Input { node } => seq![node],
            Part::Supply { node } => seq![node],
            Part::Diode { a, k } => seq![a, k],
            Part::Triode { p, g, k } => seq![p, g, k],
            Part::Pentode { p, g, k, s } => seq![p, g, k, s],
            Part::OpAmp { out, plus, minus, reference } => seq![out, plus, minus, reference],
            Part::Transformer { p1, p2, s1, s2 } => seq![p1, p2, s1, s2],
            Part::Jfet { d, g, s } => seq![d, g, s],
            Part::Core { a, b } => seq![a, b],
            Part::Bipolar { c, b, e } => seq![c, b, e],
        }
    }

    /// Whether the part imposes a voltage and so carries its own current as
    /// an unknown.
    pub open spec fn imposes_voltage(self) -> bool {
        self is OpAmp || self is Transformer
    }

    /// Whether the part has a single frequency response.
    pub open spec fn has_response(self) -> bool {
        !(self is Diode || self is Triode || self is Pentode || self is OpAmp || self is Jfet
            || self is Core || self is Bipolar)
    }

    /// Every pin is ground or one of the first `nodes` nodes.
    pub open spec fn wired_within(self, nodes: int) -> bool {
        forall|i: int| 0 <= i < self.pins().len() ==> #[trigger] self.pins()[i] == GROUND
            || self.pins()[i] < nodes
    }

    /// The same part with every non-ground pin carried through `to`.
    pub open spec fn renumbered(self, to: Seq<usize>) -> Part {
        match self {
            Part::Resistor { a, b } => Part::Resistor { a: moved(a, to), b: moved(b, to) },
            Part::Capacitor { a, b } => Part::Capacitor { a: moved(a, to), b: moved(b, to) },
            Part::Inductor { a, b } => Part::Inductor { a: moved(a, to), b: moved(b, to) },
            Part::Pot { a, wiper, b, control } => Part::Pot {
                a: moved(a, to),
                wiper: moved(wiper, to),
                b: moved(b, to),
                control,
            },
            Part::Input { node } => Part::Input { node: moved(node, to) },
            Part::Supply { node } => Part::Supply { node: moved(node, to) },
            Part::Diode { a, k } => Part::Diode { a: moved(a, to), k: moved(k, to) },
            Part::Triode { p, g, k } => Part::Triode {
                p: moved(p, to),
                g: moved(g, to),
                k: moved(k, to),
            },
            Part::Pentode { p, g, k, s } => Part::Pentode {
                p: moved(p, to),
                g: moved(g, to),
                k: moved(k, to),
                s: moved(s, to),
            },
            Part::OpAmp { out, plus, minus, reference } => Part::OpAmp {
                out: moved(out, to),
                plus: moved(plus, to),
                minus: moved(minus, to),
                reference: moved(reference, to),
            },
            Part::Transformer { p1, p2, s1, s2 } => Part::Transformer {
                p1: moved(p1, to),
                p2: moved(p2, to),
                s1: moved(s1, to),
                s2: moved(s2, to),
            },
            Part::Jfet { d, g, s } => Part::Jfet { d: moved(d, to), g: moved(g, to), s: moved(s, to) },
            Part::Core { a, b } => Part::Core { a: moved(a, to), b: moved(b, to) },
            Part::Bipolar { c, b, e } => Part::Bipolar {
                c: moved(c, to),
                b: moved(b, to),
                e: moved(e, to),
            },
        }
    }

    /// What the part is called in a report.
    pub open spec fn kind(self) -> Seq<char> {
        match self {
            Part::Resistor { .. } => "resistor"@,
            Part::Capacitor { .. } => "capacitor"@,
            Part::Inductor { .. } => "inductor"@,
            Part::Pot { .. } => "pot"@,
            Part::Input { .. } => "input"@,
            Part::Supply { .. } => "supply"@,
            Part::Diode { .. } => "diode"@,
            Part::Triode { .. } => "triode"@,
            Part::Pentode { .. } => "pentode"@,
            Part::Jfet { .. } => "JFET"@,
            Part::Core { .. } => "core"@,
            Part::Bipolar { .. } => "transistor"@,
            Part::OpAmp { .. } => "op-amp"@,
            Part::Transformer { .. } => "transformer"@,
        }
    }

    /// Every node this part touches, ground included.
    pub fn touches(&self) -> (pins: Vec<usize>)
        ensures
            pins@ == self.pins(),
    {
        let pins = match *self {
            Part::Resistor { a, b } | Part::Capacitor { a, b } | Part::Inductor { a, b } => vec![a, b],
            Part::Pot { a, wiper, b, .. } => vec![a, wiper, b],
            Part::Pentode { p, g, k, s } => vec![p, g, k, s],
            Part::Input { node } | Part::Supply { node } => vec![node],
            Part::Diode { a, k } => vec![a, k],
            Part::Triode { p, g, k } => vec![p, g, k],
            Part::OpAmp { out, plus, minus, reference } => vec![out, plus, minus, reference],
            Part::Transformer { p1, p2, s1, s2 } => vec![p1, p2, s1, s2],
            Part::Jfet { d, g, s } => vec![d, g, s],
            Part::Core { a, b } => vec![a, b],
            Part::Bipolar { c, b, e } => vec![c, b, e],
        };
        assert(pins@ =~= self.pins());
        pins
    }

    /// Whether this part imposes a voltage rather than a conductance, and so
    /// needs an unknown of its own in the matrix.
    pub fn needs_branch(&self) -> (needs: bool)
        ensures
            needs == self.imposes_voltage(),
    {
        match self {
            Part::OpAmp { .. } | Part::Transformer { .. } => true,
            _ => false,
        }
    }

    /// Whether this part has a single frequency response. A device does not,
    /// so a circuit containing one cannot be handed to the AC solver.
    pub fn is_linear(&self) -> (linear: bool)
        ensures
            linear == self.has_response(),
    {
        match self {
            Part::Diode { .. }
            | Part::Triode { .. }
            | Part::Pentode { .. }
            | Part::OpAmp { .. }
            | Part::Jfet { .. }
            | Part::Core { .. }
            | Part::Bipolar { .. } => false,
            _ => true,
        }
    }

    /// What the part is called in a report.
    pub fn name(&self) -> (name: &'static str)
        ensures
            name@ == self.kind(),
    {
        match self {
            Part::Resistor { .. } => "resistor",
            Part::Capacitor { .. } => "capacitor",
            Part::Inductor { .. } => "inductor",
            Part::Pot { .. } => "pot",
            Part::Input { .. } => "input",
            Part::Supply { .. } => "supply",
            Part::Diode { .. } => "diode",
            Part::Triode { .. } => "triode",
            Part::Pentode { .. } => "pentode",
            Part::Jfet { .. } => "JFET",
            Part::Core { .. } => "core",
            Part::Bipolar { .. } => "transistor",
            Part::OpAmp { .. } => "op-amp",
            Part::Transformer { .. } => "transformer",
        }
    }

    /// Applies a node renumbering.
    pub fn renumber(&mut self, to: &[usize])
        requires
            old(self).wired_within(to@.len() as int),
        ensures
            *final(self) == old(self).renumbered(to@),
    {
        proof {
            let pins = self.pins();
            assert(self.wired_within(to@.len() as int));
            assert(pins.len() > 0 ==> (pins[0] == GROUND || pins[0] < to@.len()));
            assert(pins.len() > 1 ==> (pins[1] == GROUND || pins[1] < to@.len()));
            assert(pins.len() > 2 ==> (pins[2] == GROUND || pins[2] < to@.len()));
            assert(pins.len() > 3 ==> (pins[3] == GROUND || pins[3] < to@.len()));
        }
        *self = match *self {
            Part::Resistor { a, b } => Part::Resistor { a: map_pin(a, to), b: map_pin(b, to) },
            Part::Capacitor { a, b } => Part::Capacitor { a: map_pin(a, to), b: map_pin(b, to) },
            Part::Inductor { a, b } => Part::Inductor { a: map_pin(a, to), b: map_pin(b, to) },
            Part::Core { a, b } => Part::Core { a: map_pin(a, to), b: map_pin(b, to) },
            Part::Pot { a, wiper, b, control } => Part::Pot {
                a: map_pin(a, to),
                wiper: map_pin(wiper, to),
                b: map_pin(b, to),
                control,
            },
            Part::Input { node } => Part::Input { node: map_pin(node, to) },
            Part::Supply { node } => Part::Supply { node: map_pin(node, to) },
            Part::Diode { a, k } => Part::Diode { a: map_pin(a, to), k: map_pin(k, to) },
            Part::Triode { p, g, k } => Part::Triode {
                p: map_pin(p, to),
                g: map_pin(g, to),
                k: map_pin(k, to),
            },
            Part::Pentode { p, g, k, s } => Part::Pentode {
                p: map_pin(p, to),
                g: map_pin(g, to),
                k: map_pin(k, to),
                s: map_pin(s, to),
            },
            Part::OpAmp { out, plus, minus, reference } => Part::OpAmp {
                out: map_pin(out, to),
                plus: map_pin(plus, to),
                minus: map_pin(minus, to),
                reference: map_pin(reference, to),
            },
            Part::Transformer { p1, p2, s1, s2 } => Part::Transformer {
                p1: map_pin(p1, to),
                p2: map_pin(p2, to),
                s1: map_pin(s1, to),
                s2: map_pin(s2, to),
            },
            Part::Jfet { d, g, s } => Part::Jfet {
                d: map_pin(d, to),
                g: map_pin(g, to),
                s: map_pin(s, to),
            },
            Part::Bipolar { c, b, e } => Part::Bipolar {
                c: map_pin(c, to),
                b: map_pin(b, to),
                e: map_pin(e, to),
            },
        };
    }
}

fn map_pin(node: usize, to: &[usize]) -> (mapped: usize)
    requires
        node == GROUND || node < to@.len(),
    ensures
        mapped == moved(node, to@),
{
    if node != GROUND {
        to[node]
    } else {
        node
    }
}

/// The text of one decimal digit.
pub open spec fn digit_text(d: int) -> Seq<char> {
    if d == 0 {
        "0"@
    } else if d == 1 {
        "1"@
    } else if d == 2 {
        "2"@
    } else if d == 3 {
        "3"@
    } else if d == 4 {
        "4"@
    } else if d == 5 {
        "5"@
    } else if d == 6 {
        "6"@
    } else if d == 7 {
        "7"@
    } else if d == 8 {
        "8"@
    } else {
        "9"@
    }
}

/// A count written out in decimal, most significant digit first.
pub open spec fn decimal(n: nat) -> Seq<char>
    decreases n,
{
    if n < 10 {
        digit_text(n as int)
    } else {
        decimal(n / 10) + digit_text((n % 10) as int)
    }
}

fn digit(d: usize) -> (text: &'static str)
    requires
        d < 10,
    ensures
        text@ == digit_text(d as int),
{
    match d {
        0 => "0",
        1 => "1",
        2 => "2",
        3 => "3",
        4 => "4",
        5 => "5",
        6 => "6",
        7 => "7",
        8 => "8",
        _ => "9",
    }
}

/// Appends `n` in decimal.
fn push_decimal(text: &mut String, n: usize)
    ensures
        final(text)@ == old(text)@ + decimal(n as nat),
    decreases n,
{
    if n >= 10 {
        push_decimal(text, n / 10);
    }
    text.append(digit(n % 10));
    assert(final(text)@ =~= old(text)@ + decimal(n as nat));
}

/// What a netlist can be wrong about, said in terms of the names you used.
#[derive(Debug, PartialEq, Eq)]
pub enum Fault {
    /// A node nothing is connected to, or connected only once, which leaves a
    /// row of the matrix empty or unsolvable.
    Dangling { node: String, connections: usize },
    /// The output is not reachable from the input through any part, so
    /// whatever the circuit does cannot arrive anywhere.
    Unreachable { from: String, to: String },
    /// No input, or no output, or a part with a value that cannot be stamped.
    Malformed(String),
}

/// How a fault reads.
pub open spec fn fault_text(fault: Fault) -> Seq<char> {
    match fault {
        Fault::Dangling { node, connections } => "node '"@ + node@ + "' has "@ + decimal(
            connections as nat,
        ) + " connection(s); it needs at least two or its row of the matrix is empty and the solve returns NaN"@,
        Fault::Unreachable { from, to } => "no path from '"@ + from@ + "' to '"@ + to@ + "'"@,
        Fault::Malformed(what) => what@,
    }
}

impl Fault {
    /// The fault as a sentence.
    pub fn to_string(&self) -> (text: String)
        ensures
            text@ == fault_text(*self),
    {
        match self {
            Fault::Dangling { node, connections } => {
                let mut text = String::from_str("node '");
                text.append(node.as_str());
                text.append("' has ");
                push_decimal(&mut text, *connections);
                text.append(
                    " connection(s); it needs at least two or its row of the matrix is empty and the solve returns NaN",
                );
                text
            },
            Fault::Unreachable { from, to } => {
                let mut text = String::from_str("no path from '");
                text.append(from.as_str());
                text.append("' to '");
                text.append(to.as_str());
                text.append("'");
                text
            },
            Fault::Malformed(what) => what.clone(),
        }
    }
}


/// Whether a pin name means the reference rather than a node.
pub open spec fn is_ground_name(name: Seq<char>) -> bool {
    name == "gnd"@ || name == "ground"@
}

/// Where a name lands among `names`, and the names afterwards: the reference
/// for a ground name, the existing index for a name already there, and a new
/// index at the end for anything else.
pub open spec fn pin_spec(names: Seq<Seq<char>>, name: Seq<char>) -> (usize, Seq<Seq<char>>) {
    if is_ground_name(name) {
        (GROUND, names)
    } else if names.contains(name) {
        (names.index_of(name) as usize, names)
    } else {
        (names.len() as usize, names.push(name))
    }
}

/// Pins a list of names one after another, left to right.
pub open spec fn wire(names: Seq<Seq<char>>, wanted: Seq<Seq<char>>) -> (Seq<usize>, Seq<Seq<char>>)
    decreases wanted.len(),
{
    if wanted.len() == 0 {
        (Seq::empty(), names)
    } else {
        let (earlier, so_far) = wire(names, wanted.drop_last());
        let (at, after) = pin_spec(so_far, wanted.last());
        (earlier.push(at), after)
    }
}

/// Two strings hold the same text.
fn same_text(a: &str, b: &str) -> (same: bool)
    ensures
        same == (a@ == b@),
{
    a.to_owned() == b.to_owned()
}

/// A circuit under construction.
pub struct Netlist {
    name: &'static str,
    /// Node names, by index.
    order: Vec<String>,
    parts: Vec<Part>,
    /// Whether each part's value can be stamped: positive, and whatever else
    /// its kind asks of it.
    stampable: Vec<bool>,
    controls: usize,
    /// Nodes given an initial voltage for the operating-point search.
    initial: Vec<usize>,
    /// Controls given a resting position.
    resting: Vec<usize>,
}

impl Netlist {
    pub closed spec fn title(&self) -> Seq<char> {
        self.name@
    }

    /// The node names, by index.
    pub closed spec fn node_names(&self) -> Seq<Seq<char>> {
        self.order@.map_values(|name: String| name@)
    }

    pub closed spec fn part_list(&self) -> Seq<Part> {
        self.parts@
    }

    pub closed spec fn stampable_list(&self) -> Seq<bool> {
        self.stampable@
    }

    pub closed spec fn control_count(&self) -> nat {
        self.controls as nat
    }

    pub closed spec fn initial_nodes(&self) -> Seq<usize> {
        self.initial@
    }

    pub closed spec fn resting_controls(&self) -> Seq<usize> {
        self.resting@
    }

    /// Names are distinct, every pin is ground or a named node, and every part
    /// says whether its value can be stamped.
    pub closed spec fn wf(&self) -> bool {
        &&& self.node_names().no_duplicates()
        &&& self.stampable@.len() == self.parts@.len()
        &&& forall|i: int|
            0 <= i < self.parts@.len() ==> (#[trigger] self.parts@[i]).wired_within(
                self.order@.len() as int,
            )
        &&& forall|i: int|
            0 <= i < self.initial@.len() ==> #[trigger] self.initial@[i] == GROUND
                || self.initial@[i] < self.order@.len()
    }

    /// `after` is `before` with one more part and its nodes named.
    pub open spec fn grown(
        before: Netlist,
        after: Netlist,
        part: Part,
        stampable: bool,
        names: Seq<Seq<char>>,
    ) -> bool {
        &&& after.wf()
        &&& after.title() == before.title()
        &&& after.node_names() == names
        &&& after.part_list() == before.part_list().push(part)
        &&& after.stampable_list() == before.stampable_list().push(stampable)
        &&& after.control_count() == before.control_count()
        &&& after.initial_nodes() == before.initial_nodes()
        &&& after.resting_controls() == before.resting_controls()
    }

    pub fn new(name: &'static str) -> (netlist: Self)
        ensures
            netlist.wf(),
            netlist.title() == name@,
            netlist.node_names() == Seq::<Seq<char>>::empty(),
            netlist.part_list() == Seq::<Part>::empty(),
            netlist.stampable_list() == Seq::<bool>::empty(),
            netlist.control_count() == 0,
            netlist.initial_nodes() == Seq::<usize>::empty(),
            netlist.resting_controls() == Seq::<usize>::empty(),
    {
        let netlist = Self {
            name,
            order: Vec::new(),
            parts: Vec::new(),
            stampable: Vec::new(),
            controls: 0,
            initial: Vec::new(),
            resting: Vec::new(),
        };
        assert(netlist.node_names() =~= Seq::<Seq<char>>::empty());
        netlist
    }

    /// The index for a named node, allocating it the first time it is asked
    /// for. Asking twice gives the same answer.
    pub fn node(&mut self, name: &str) -> (at: usize)
        requires
            old(self).wf(),
        ensures
            final(self).wf(),
            at < final(self).node_names().len() <= usize::MAX,
            at != GROUND,
            old(self).node_names().contains(name@) ==> {
                &&& at == old(self).node_names().index_of(name@)
                &&& final(self).node_names() == old(self).node_names()
            },
            !old(self).node_names().contains(name@) ==> {
                &&& at == old(self).node_names().len()
                &&& final(self).node_names() == old(self).node_names().push(name@)
            },
            final(self).title() == old(self).title(),
            final(self).part_list() == old(self).part_list(),
            final(self).stampable_list() == old(self).stampable_list(),
            final(self).control_count() == old(self).control_count(),
            final(self).initial_nodes() == old(self).initial_nodes(),
            final(self).resting_controls() == old(self).resting_controls(),
    {
        let wanted = name.to_owned();
        let ghost names = self.node_names();
        let mut at: usize = 0;
        while at < self.order.len()
            invariant
                self == old(self),
                self.wf(),
                names == self.node_names(),
                wanted@ == name@,
                0 <= at <= self.order@.len(),
                forall|i: int| 0 <= i < at ==> names[i] != name@,
            decreases self.order@.len() - at,
        {
            if self.order[at] == wanted {
                assert(names[at as int] == name@);
                assert(names.contains(name@));
                proof {
                    let other = names.index_of(name@);
                    assert(names.no_duplicates());
                    assert(names[other] == name@);
                    assert(other == at);
                }
                return at;
            }
            at = at + 1;
        }
        assert(!names.contains(name@));
        let at = self.order.len();
        self.order.push(wanted);
        let count = self.order.len();
        proof {
            assert(self.node_names() =~= names.push(name@));
            assert forall|i: int| 0 <= i < self.parts@.len() implies (
            #[trigger] self.parts@[i]).wired_within(self.order@.len() as int) by {
                assert(old(self).parts@[i].wired_within(old(self).order@.len() as int));
            }
        }
        at
    }

    /// The reference node.
    pub fn ground(&self) -> (node: usize)
        ensures
            node == GROUND,
    {
        GROUND
    }

    /// `"gnd"` and `"ground"` are the reference; anything else is a node.
    fn pin(&mut self, name: &str) -> (at: usize)
        requires
            old(self).wf(),
        ensures
            final(self).wf(),
            (at, final(self).node_names()) == pin_spec(old(self).node_names(), name@),
            final(self).title() == old(self).title(),
            final(self).part_list() == old(self).part_list(),
            final(self).stampable_list() == old(self).stampable_list(),
            final(self).control_count() == old(self).control_count(),
            final(self).initial_nodes() == old(self).initial_nodes(),
            final(self).resting_controls() == old(self).resting_controls(),
    {
        if same_text(name, "gnd") || same_text(name, "ground") {
            GROUND
        } else {
            self.node(name)
        }
    }

    /// Pins every name in turn.
    fn pins(&mut self, wanted: &[&str]) -> (at: Vec<usize>)
        requires
            old(self).wf(),
        ensures
            final(self).wf(),
            at@.len() == wanted@.len(),
            (at@, final(self).node_names()) == wire(
                old(self).node_names(),
                wanted@.map_values(|name: &str| name@),
            ),
            forall|i: int|
                0 <= i < at@.len() ==> #[trigger] at@[i] == GROUND || at@[i]
                    < final(self).node_names().len(),
            final(self).title() == old(self).title(),
            final(self).part_list() == old(self).part_list(),
            final(self).stampable_list() == old(self).stampable_list(),
            final(self).control_count() == old(self).control_count(),
            final(self).initial_nodes() == old(self).initial_nodes(),
            final(self).resting_controls() == old(self).resting_controls(),
    {
        let ghost names = wanted@.map_values(|name: &str| name@);
        let mut at: Vec<usize> = Vec::new();
        let mut i: usize = 0;
        while i < wanted.len()
            invariant
                self.wf(),
                0 <= i <= wanted@.len(),
                at@.len() == i,
                names == wanted@.map_values(|name: &str| name@),
                (at@, self.node_names()) == wire(old(self).node_names(), names.subrange(0, i as int)),
                forall|j: int|
                    0 <= j < at@.len() ==> #[trigger] at@[j] == GROUND || at@[j]
                        < self.node_names().len(),
                self.title() == old(self).title(),
                self.part_list() == old(self).part_list(),
                self.stampable_list() == old(self).stampable_list(),
                self.control_count() == old(self).control_count(),
                self.initial_nodes() == old(self).initial_nodes(),
                self.resting_controls() == old(self).resting_controls(),
            decreases wanted@.len() - i,
        {
            let ghost before = self.node_names();
            let pinned = self.pin(wanted[i]);
            proof {
                let next = names.subrange(0, i + 1);
                assert(next.drop_last() =~= names.subrange(0, i as int));
                assert(next.last() == wanted@[i as int]@);
                if !is_ground_name(wanted@[i as int]@) && before.contains(wanted@[i as int]@) {
                    let k = before.index_of(wanted@[i as int]@);
                    assert(0 <= k < before.len());
                }
            }
            at.push(pinned);
            i = i + 1;
        }
        assert(names.subrange(0, wanted@.len() as int) =~= names);
        at
    }

    /// Records a part and whether its value can be stamped.
    fn add(&mut self, part: Part, stampable: bool)
        requires
            old(self).wf(),
            part.wired_within(old(self).node_names().len() as int),
        ensures
            Self::grown(*old(self), *final(self), part, stampable, old(self).node_names()),
    {
        self.parts.push(part);
        self.stampable.push(stampable);
        proof {
            assert forall|i: int| 0 <= i < self.parts@.len() implies (
            #[trigger] self.parts@[i]).wired_within(self.order@.len() as int) by {
                if i < old(self).parts@.len() {
                    assert(old(self).parts@[i].wired_within(old(self).order@.len() as int));
                }
            }
        }
    }
}


impl Netlist {
    pub fn resistor(&mut self, a: &str, b: &str, stampable: bool) -> (built: &mut Self)
        requires
            old(self).wf(),
        ensures
            ({
                let (at, names) = wire(old(self).node_names(), seq![a@, b@]);
                Self::grown(*old(self), *built, Part::Resistor { a: at[0], b: at[1] }, stampable, names)
            }),
            *final(self) == *final(built),
    {
        let at = self.pins(&[a, b]);
        proof {
            assert(seq![a, b].map_values(|name: &str| name@) =~= seq![a@, b@]);
            assert(at@[0] == GROUND || at@[0] < self.node_names().len());
            assert(at@[1] == GROUND || at@[1] < self.node_names().len());
        }
        self.add(Part::Resistor { a: at[0], b: at[1] }, stampable);
        self
    }

    pub fn capacitor(&mut self, a: &str, b: &str, stampable: bool) -> (built: &mut Self)
        requires
            old(self).wf(),
        ensures
            ({
                let (at, names) = wire(old(self).node_names(), seq![a@, b@]);
                Self::grown(*old(self), *built, Part::Capacitor { a: at[0], b: at[1] }, stampable, names)
            }),
            *final(self) == *final(built),
    {
        let at = self.pins(&[a, b]);
        proof {
            assert(seq![a, b].map_values(|name: &str| name@) =~= seq![a@, b@]);
            assert(at@[0] == GROUND || at@[0] < self.node_names().len());
            assert(at@[1] == GROUND || at@[1] < self.node_names().len());
        }
        self.add(Part::Capacitor { a: at[0], b: at[1] }, stampable);
        self
    }

    pub fn inductor(&mut self, a: &str, b: &str, stampable: bool) -> (built: &mut Self)
        requires
            old(self).wf(),
        ensures
            ({
                let (at, names) = wire(old(self).node_names(), seq![a@, b@]);
                Self::grown(*old(self), *built, Part::Inductor { a: at[0], b: at[1] }, stampable, names)
            }),
            *final(self) == *final(built),
    {
        let at = self.pins(&[a, b]);
        proof {
            assert(seq![a, b].map_values(|name: &str| name@) =~= seq![a@, b@]);
            assert(at@[0] == GROUND || at@[0] < self.node_names().len());
            assert(at@[1] == GROUND || at@[1] < self.node_names().len());
        }
        self.add(Part::Inductor { a: at[0], b: at[1] }, stampable);
        self
    }

    /// Where the signal arrives, through the impedance driving it.
    pub fn input(&mut self, node: &str, stampable: bool) -> (built: &mut Self)
        requires
            old(self).wf(),
        ensures
            ({
                let (at, names) = wire(old(self).node_names(), seq![node@]);
                Self::grown(*old(self), *built, Part::Input { node: at[0] }, stampable, names)
            }),
            *final(self) == *final(built),
    {
        let wanted: [&str; 1] = [node];
        let at = self.pins(wanted.as_slice());
        proof {
            assert(wanted@.map_values(|name: &str| name@) =~= seq![node@]);
            assert(seq![node@].drop_last() =~= Seq::<Seq<char>>::empty());
            assert(at@[0] == GROUND || at@[0] < self.node_names().len());
        }
        self.add(Part::Input { node: at[0] }, stampable);
        self
    }

    /// A supply rail behind its series resistance.
    pub fn supply(&mut self, node: &str, stampable: bool) -> (built: &mut Self)
        requires
            old(self).wf(),
        ensures
            ({
                let (at, names) = wire(old(self).node_names(), seq![node@]);
                Self::grown(*old(self), *built, Part::Supply { node: at[0] }, stampable, names)
            }),
            *final(self) == *final(built),
    {
        let wanted: [&str; 1] = [node];
        let at = self.pins(wanted.as_slice());
        proof {
            assert(wanted@.map_values(|name: &str| name@) =~= seq![node@]);
            assert(seq![node@].drop_last() =~= Seq::<Seq<char>>::empty());
            assert(at@[0] == GROUND || at@[0] < self.node_names().len());
        }
        self.add(Part::Supply { node: at[0] }, stampable);
        self
    }

    pub fn diode(&mut self, a: &str, k: &str, stampable: bool) -> (built: &mut Self)
        requires
            old(self).wf(),
        ensures
            ({
                let (at, names) = wire(old(self).node_names(), seq![a@, k@]);
                Self::grown(*old(self), *built, Part::Diode { a: at[0], k: at[1] }, stampable, names)
            }),
            *final(self) == *final(built),
    {
        let at = self.pins(&[a, k]);
        proof {
            assert(seq![a, k].map_values(|name: &str| name@) =~= seq![a@, k@]);
            assert(at@[0] == GROUND || at@[0] < self.node_names().len());
            assert(at@[1] == GROUND || at@[1] < self.node_names().len());
        }
        self.add(Part::Diode { a: at[0], k: at[1] }, stampable);
        self
    }

    pub fn jfet(&mut self, d: &str, g: &str, s: &str, stampable: bool) -> (built: &mut Self)
        requires
            old(self).wf(),
        ensures
            ({
                let (at, names) = wire(old(self).node_names(), seq![d@, g@, s@]);
                Self::grown(*old(self), *built, Part::Jfet { d: at[0], g: at[1], s: at[2] }, stampable, names)
            }),
            *final(self) == *final(built),
    {
        let at = self.pins(&[d, g, s]);
        proof {
            assert(seq![d, g, s].map_values(|name: &str| name@) =~= seq![d@, g@, s@]);
            assert(at@[0] == GROUND || at@[0] < self.node_names().len());
            assert(at@[1] == GROUND || at@[1] < self.node_names().len());
            assert(at@[2] == GROUND || at@[2] < self.node_names().len());
        }
        self.add(Part::Jfet { d: at[0], g: at[1], s: at[2] }, stampable);
        self
    }

    pub fn bipolar(&mut self, c: &str, b: &str, e: &str, stampable: bool) -> (built: &mut Self)
        requires
            old(self).wf(),
        ensures
            ({
                let (at, names) = wire(old(self).node_names(), seq![c@, b@, e@]);
                Self::grown(*old(self), *built, Part::Bipolar { c: at[0], b: at[1], e: at[2] }, stampable, names)
            }),
            *final(self) == *final(built),
    {
        let at = self.pins(&[c, b, e]);
        proof {
            assert(seq![c, b, e].map_values(|name: &str| name@) =~= seq![c@, b@, e@]);
            assert(at@[0] == GROUND || at@[0] < self.node_names().len());
            assert(at@[1] == GROUND || at@[1] < self.node_names().len());
            assert(at@[2] == GROUND || at@[2] < self.node_names().len());
        }
        self.add(Part::Bipolar { c: at[0], b: at[1], e: at[2] }, stampable);
        self
    }

    /// The magnetising branch of a winding: what makes iron sound like iron.
    pub fn magnetising_core(&mut self, a: &str, b: &str, stampable: bool) -> (built: &mut Self)
        requires
            old(self).wf(),
        ensures
            ({
                let (at, names) = wire(old(self).node_names(), seq![a@, b@]);
                Self::grown(*old(self), *built, Part::Core { a: at[0], b: at[1] }, stampable, names)
            }),
            *final(self) == *final(built),
    {
        let at = self.pins(&[a, b]);
        proof {
            assert(seq![a, b].map_values(|name: &str| name@) =~= seq![a@, b@]);
            assert(at@[0] == GROUND || at@[0] < self.node_names().len());
            assert(at@[1] == GROUND || at@[1] < self.node_names().len());
        }
        self.add(Part::Core { a: at[0], b: at[1] }, stampable);
        self
    }

    pub fn triode(&mut self, p: &str, g: &str, k: &str, stampable: bool) -> (built: &mut Self)
        requires
            old(self).wf(),
        ensures
            ({
                let (at, names) = wire(old(self).node_names(), seq![p@, g@, k@]);
                Self::grown(*old(self), *built, Part::Triode { p: at[0], g: at[1], k: at[2] }, stampable, names)
            }),
            *final(self) == *final(built),
    {
        let at = self.pins(&[p, g, k]);
        proof {
            assert(seq![p, g, k].map_values(|name: &str| name@) =~= seq![p@, g@, k@]);
            assert(at@[0] == GROUND || at@[0] < self.node_names().len());
            assert(at@[1] == GROUND || at@[1] < self.node_names().len());
            assert(at@[2] == GROUND || at@[2] < self.node_names().len());
        }
        self.add(Part::Triode { p: at[0], g: at[1], k: at[2] }, stampable);
        self
    }

    /// One power tube, or several of them in parallel.
    pub fn pentode(&mut self, p: &str, g: &str, k: &str, screen: &str, stampable: bool) -> (built: &mut Self)
        requires
            old(self).wf(),
        ensures
            ({
                let (at, names) = wire(old(self).node_names(), seq![p@, g@, k@, screen@]);
                Self::grown(*old(self), *built, Part::Pentode { p: at[0], g: at[1], k: at[2], s: at[3] }, stampable, names)
            }),
            *final(self) == *final(built),
    {
        let at = self.pins(&[p, g, k, screen]);
        proof {
            assert(seq![p, g, k, screen].map_values(|name: &str| name@) =~= seq![p@, g@, k@, screen@]);
            assert(at@[0] == GROUND || at@[0] < self.node_names().len());
            assert(at@[1] == GROUND || at@[1] < self.node_names().len());
            assert(at@[2] == GROUND || at@[2] < self.node_names().len());
            assert(at@[3] == GROUND || at@[3] < self.node_names().len());
        }
        self.add(Part::Pentode { p: at[0], g: at[1], k: at[2], s: at[3] }, stampable);
        self
    }

    /// An op-amp on a split supply, clipping symmetrically about ground.
    pub fn opamp(&mut self, out: &str, plus: &str, minus: &str, stampable: bool) -> (built: &mut Self)
        requires
            old(self).wf(),
        ensures
            ({
                let (at, names) = wire(old(self).node_names(), seq![out@, plus@, minus@]);
                Self::grown(*old(self), *built, Part::OpAmp { out: at[0], plus: at[1], minus: at[2], reference: GROUND }, stampable, names)
            }),
            *final(self) == *final(built),
    {
        let at = self.pins(&[out, plus, minus]);
        proof {
            assert(seq![out, plus, minus].map_values(|name: &str| name@) =~= seq![out@, plus@, minus@]);
            assert(at@[0] == GROUND || at@[0] < self.node_names().len());
            assert(at@[1] == GROUND || at@[1] < self.node_names().len());
            assert(at@[2] == GROUND || at@[2] < self.node_names().len());
        }
        self.add(Part::OpAmp { out: at[0], plus: at[1], minus: at[2], reference: GROUND }, stampable);
        self
    }

    /// An op-amp on a single supply, clipping about the bias point the whole
    /// circuit sits at.
    pub fn opamp_biased(&mut self, out: &str, plus: &str, minus: &str, reference: &str, stampable: bool) -> (built: &mut Self)
        requires
            old(self).wf(),
        ensures
            ({
                let (at, names) = wire(old(self).node_names(), seq![out@, plus@, minus@, reference@]);
                Self::grown(*old(self), *built, Part::OpAmp { out: at[0], plus: at[1], minus: at[2], reference: at[3] }, stampable, names)
            }),
            *final(self) == *final(built),
    {
        let at = self.pins(&[out, plus, minus, reference]);
        proof {
            assert(seq![out, plus, minus, reference].map_values(|name: &str| name@) =~= seq![out@, plus@, minus@, reference@]);
            assert(at@[0] == GROUND || at@[0] < self.node_names().len());
            assert(at@[1] == GROUND || at@[1] < self.node_names().len());
            assert(at@[2] == GROUND || at@[2] < self.node_names().len());
            assert(at@[3] == GROUND || at@[3] < self.node_names().len());
        }
        self.add(Part::OpAmp { out: at[0], plus: at[1], minus: at[2], reference: at[3] }, stampable);
        self
    }

    pub fn transformer(&mut self, p1: &str, p2: &str, s1: &str, s2: &str, stampable: bool) -> (built: &mut Self)
        requires
            old(self).wf(),
        ensures
            ({
                let (at, names) = wire(old(self).node_names(), seq![p1@, p2@, s1@, s2@]);
                Self::grown(*old(self), *built, Part::Transformer { p1: at[0], p2: at[1], s1: at[2], s2: at[3] }, stampable, names)
            }),
            *final(self) == *final(built),
    {
        let at = self.pins(&[p1, p2, s1, s2]);
        proof {
            assert(seq![p1, p2, s1, s2].map_values(|name: &str| name@) =~= seq![p1@, p2@, s1@, s2@]);
            assert(at@[0] == GROUND || at@[0] < self.node_names().len());
            assert(at@[1] == GROUND || at@[1] < self.node_names().len());
            assert(at@[2] == GROUND || at@[2] < self.node_names().len());
            assert(at@[3] == GROUND || at@[3] < self.node_names().len());
        }
        self.add(Part::Transformer { p1: at[0], p2: at[1], s1: at[2], s2: at[3] }, stampable);
        self
    }

    /// A potentiometer as the two halves of its track, turned by `control`.
    /// Tie `wiper` to `b` to use it as a rheostat.
    pub fn pot(&mut self, a: &str, wiper: &str, b: &str, control: usize, stampable: bool) -> (built: &mut Self)
        requires
            old(self).wf(),
            control < usize::MAX,
        ensures
            ({
                let (at, names) = wire(old(self).node_names(), seq![a@, wiper@, b@]);
                let grown = Part::Pot { a: at[0], wiper: at[1], b: at[2], control };
                &&& built.wf()
                &&& built.title() == old(self).title()
                &&& built.node_names() == names
                &&& built.part_list() == old(self).part_list().push(grown)
                &&& built.stampable_list() == old(self).stampable_list().push(stampable)
                &&& built.control_count() == vstd::math::max(
                    old(self).control_count() as int,
                    control + 1,
                )
                &&& built.initial_nodes() == old(self).initial_nodes()
                &&& built.resting_controls() == old(self).resting_controls()
            }),
            *final(self) == *final(built),
    {
        let at = self.pins(&[a, wiper, b]);
        proof {
            assert(seq![a, wiper, b].map_values(|name: &str| name@) =~= seq![a@, wiper@, b@]);
            assert(at@[0] == GROUND || at@[0] < self.node_names().len());
            assert(at@[1] == GROUND || at@[1] < self.node_names().len());
            assert(at@[2] == GROUND || at@[2] < self.node_names().len());
        }
        if self.controls < control + 1 {
            self.controls = control + 1;
        }
        self.add(Part::Pot { a: at[0], wiper: at[1], b: at[2], control }, stampable);
        self
    }

    /// Give a node an initial voltage for the operating-point search. The
    /// voltage itself is the caller's; this records which node it is for.
    pub fn initial_voltage(&mut self, node: &str) -> (built: &mut Self)
        requires
            old(self).wf(),
        ensures
            ({
                let (at, names) = pin_spec(old(self).node_names(), node@);
                &&& built.wf()
                &&& built.title() == old(self).title()
                &&& built.node_names() == names
                &&& built.part_list() == old(self).part_list()
                &&& built.stampable_list() == old(self).stampable_list()
                &&& built.control_count() == old(self).control_count()
                &&& built.initial_nodes() == old(self).initial_nodes().push(at)
                &&& built.resting_controls() == old(self).resting_controls()
            }),
            *final(self) == *final(built),
    {
        let at = self.pin(node);
        proof {
            if !is_ground_name(node@) && old(self).node_names().contains(node@) {
                let k = old(self).node_names().index_of(node@);
                assert(0 <= k < old(self).node_names().len());
            }
        }
        self.initial.push(at);
        proof {
            assert forall|i: int| 0 <= i < self.initial@.len() implies #[trigger] self.initial@[i]
                == GROUND || self.initial@[i] < self.order@.len() by {
                assert(self.node_names().len() == self.order@.len());
                assert(old(self).node_names().len() == old(self).order@.len());
                if i < old(self).initial@.len() {
                    assert(old(self).initial@[i] == GROUND || old(self).initial@[i] < old(
                        self,
                    ).order@.len());
                } else {
                    assert(self.initial@[i] == at);
                }
            }
        }
        self
    }

    /// Where a control sits when nothing turns it. The position itself is the
    /// caller's; this records that the control has one.
    pub fn rest(&mut self, control: usize) -> (built: &mut Self)
        requires
            old(self).wf(),
            control < usize::MAX,
        ensures
            built.wf(),
            built.title() == old(self).title(),
            built.node_names() == old(self).node_names(),
            built.part_list() == old(self).part_list(),
            built.stampable_list() == old(self).stampable_list(),
            built.control_count() == vstd::math::max(old(self).control_count() as int, control + 1),
            built.initial_nodes() == old(self).initial_nodes(),
            built.resting_controls() == old(self).resting_controls().push(control),
            *final(self) == *final(built),
    {
        if self.controls < control + 1 {
            self.controls = control + 1;
        }
        self.resting.push(control);
        self
    }
}


/// Two distinct-from-ground nodes that some part touches both of.
pub open spec fn joined(parts: Seq<Part>, a: usize, b: usize) -> bool {
    &&& a != GROUND
    &&& b != GROUND
    &&& exists|i: int|
        0 <= i < parts.len() && (#[trigger] parts[i].pins()).contains(a) && parts[i].pins().contains(b)
}

/// One step of a walk joins its node to the next.
pub open spec fn step_joined(parts: Seq<Part>, walk: Seq<usize>, i: int) -> bool {
    joined(parts, walk[i], walk[i + 1])
}

/// A walk through the circuit, node to node, each step through a part that
/// touches both ends. Ground is not a path: everything touches it.
pub open spec fn is_walk(parts: Seq<Part>, walk: Seq<usize>) -> bool {
    &&& walk.len() >= 1
    &&& forall|i: int| 0 <= i < walk.len() - 1 ==> #[trigger] step_joined(parts, walk, i)
}

/// Whether a signal can get from one node to another through the parts.
pub open spec fn reachable(parts: Seq<Part>, from: usize, to: usize) -> bool {
    exists|walk: Seq<usize>| is_walk(parts, walk) && walk[0] == from && walk.last() == to
}

/// How many entries of `flags` are still clear.
pub open spec fn clear_count(flags: Seq<bool>) -> nat
    decreases flags.len(),
{
    if flags.len() == 0 {
        0
    } else {
        clear_count(flags.drop_last()) + if flags.last() {
            0nat
        } else {
            1nat
        }
    }
}

proof fn lemma_clear_count_set(flags: Seq<bool>, i: int)
    requires
        0 <= i < flags.len(),
        !flags[i],
    ensures
        clear_count(flags.update(i, true)) + 1 == clear_count(flags),
    decreases flags.len(),
{
    let after = flags.update(i, true);
    if i == flags.len() - 1 {
        assert(after.drop_last() =~= flags.drop_last());
    } else {
        assert(after.drop_last() =~= flags.drop_last().update(i, true));
        lemma_clear_count_set(flags.drop_last(), i);
    }
}

/// A walk extended by one joined step is still a walk.
proof fn lemma_walk_extends(parts: Seq<Part>, walk: Seq<usize>, next: usize)
    requires
        is_walk(parts, walk),
        joined(parts, walk.last(), next),
    ensures
        is_walk(parts, walk.push(next)),
{
    let longer = walk.push(next);
    assert forall|i: int| 0 <= i < longer.len() - 1 implies #[trigger] step_joined(
        parts,
        longer,
        i,
    ) by {
        if i < walk.len() - 1 {
            assert(step_joined(parts, walk, i));
        }
    }
}

/// A walk that starts inside a set closed under joining never leaves it.
proof fn lemma_walk_stays(parts: Seq<Part>, walk: Seq<usize>, inside: Set<usize>, k: int)
    requires
        is_walk(parts, walk),
        inside.contains(walk[0]),
        forall|a: usize, b: usize| inside.contains(a) && #[trigger] joined(parts, a, b) ==> inside.contains(b),
        0 <= k < walk.len(),
    ensures
        inside.contains(walk[k]),
    decreases k,
{
    if k > 0 {
        lemma_walk_stays(parts, walk, inside, k - 1);
        assert(step_joined(parts, walk, k - 1));
    }
}

/// Whether `list` holds `x`.
pub(crate) fn holds(list: &Vec<usize>, x: usize) -> (found: bool)
    ensures
        found == list@.contains(x),
{
    let mut i: usize = 0;
    while i < list.len()
        invariant
            0 <= i <= list@.len(),
            forall|j: int| 0 <= j < i ==> list@[j] != x,
        decreases list@.len() - i,
    {
        if list[i] == x {
            assert(list@[i as int] == x);
            return true;
        }
        i = i + 1;
    }
    false
}

impl Netlist {
    /// Whether a signal can get from one node to another through any part.
    fn reaches(&self, from: usize, to: usize) -> (found: bool)
        requires
            self.wf(),
            from < self.order@.len(),
            to < self.order@.len(),
        ensures
            found == reachable(self.parts@, from, to),
    {
        let ghost parts = self.parts@;
        let n = self.order.len();
        let mut seen: Vec<bool> = Vec::new();
        while seen.len() < n
            invariant
                seen@.len() <= n,
                forall|k: int| 0 <= k < seen@.len() ==> !seen@[k],
            decreases n - seen@.len(),
        {
            seen.push(false);
        }
        let ghost mut clear: nat = clear_count(seen@);
        proof {
            assert(is_walk(parts, seq![from]));
            assert(seq![from].last() == from);
            lemma_clear_count_set(seen@, from as int);
        }
        seen.set(from, true);
        proof {
            clear = clear_count(seen@);
        }
        let mut stack: Vec<usize> = Vec::new();
        stack.push(from);
        let ghost mut done: Set<usize> = Set::empty();
        while stack.len() > 0
            invariant
                parts == self.parts@,
                self.wf(),
                n == self.order@.len(),
                from < n,
                to < n,
                seen@.len() == n,
                seen@[from as int],
                clear == clear_count(seen@),
                forall|i: int| 0 <= i < stack@.len() ==> #[trigger] stack@[i] < n,
                forall|k: usize| #[trigger] done.contains(k) ==> k < n && k != to,
                forall|k: usize|
                    k < n ==> (#[trigger] seen@[k as int] <==> (done.contains(k)
                        || stack@.contains(k))),
                forall|k: usize| k < n && #[trigger] seen@[k as int] ==> reachable(parts, from, k),
                forall|a: usize, b: usize|
                    done.contains(a) && #[trigger] joined(parts, a, b) ==> b < n && seen@[b as int],
            decreases 2 * clear + stack@.len(),
        {
            let ghost before = 2 * clear + stack@.len();
            let ghost waiting = stack@;
            let at = stack.pop().unwrap();
            proof {
                assert(waiting =~= stack@.push(at));
                assert forall|k: usize| k < n implies (#[trigger] seen@[k as int] <==> (done.contains(k)
                    || stack@.contains(k) || k == at)) by {
                    if waiting.contains(k) && k != at {
                        let i = choose|i: int| 0 <= i < waiting.len() && waiting[i] == k;
                        assert(stack@[i] == k);
                    }
                    if stack@.contains(k) {
                        let i = choose|i: int| 0 <= i < stack@.len() && stack@[i] == k;
                        assert(waiting[i] == k);
                    }
                }
            }
            if at == to {
                assert(seen@[at as int]);
                return true;
            }
            let mut p: usize = 0;
            while p < self.parts.len()
                invariant
                    parts == self.parts@,
                    self.wf(),
                    n == self.order@.len(),
                    0 <= p <= parts.len(),
                    from < n,
                    to < n,
                    at < n,
                    at != to,
                    seen@.len() == n,
                    seen@[from as int],
                    seen@[at as int],
                    clear == clear_count(seen@),
                    2 * clear + stack@.len() < before,
                    forall|i: int| 0 <= i < stack@.len() ==> #[trigger] stack@[i] < n,
                    forall|k: usize| #[trigger] done.contains(k) ==> k < n && k != to,
                    forall|k: usize|
                        k < n ==> (#[trigger] seen@[k as int] <==> (done.contains(k)
                            || stack@.contains(k) || k == at)),
                    forall|k: usize| k < n && #[trigger] seen@[k as int] ==> reachable(parts, from, k),
                    forall|a: usize, b: usize|
                        done.contains(a) && #[trigger] joined(parts, a, b) ==> b < n && seen@[b as int],
                    forall|q: int, b: usize|
                        0 <= q < p && parts[q].pins().contains(at) && #[trigger] parts[q].pins().contains(b)
                            && b != GROUND ==> b < n && seen@[b as int],
                decreases parts.len() - p,
            {
                let pins = self.parts[p].touches();
                if holds(&pins, at) {
                    let mut j: usize = 0;
                    while j < pins.len()
                        invariant
                            parts == self.parts@,
                            self.wf(),
                            n == self.order@.len(),
                            0 <= p < parts.len(),
                            pins@ == parts[p as int].pins(),
                            pins@.contains(at),
                            0 <= j <= pins@.len(),
                            from < n,
                            to < n,
                            at < n,
                            at != to,
                            seen@.len() == n,
                            seen@[from as int],
                            seen@[at as int],
                            clear == clear_count(seen@),
                            2 * clear + stack@.len() < before,
                            forall|i: int| 0 <= i < stack@.len() ==> #[trigger] stack@[i] < n,
                            forall|k: usize| #[trigger] done.contains(k) ==> k < n && k != to,
                            forall|k: usize|
                                k < n ==> (#[trigger] seen@[k as int] <==> (done.contains(k)
                                    || stack@.contains(k) || k == at)),
                            forall|k: usize|
                                k < n && #[trigger] seen@[k as int] ==> reachable(parts, from, k),
                            forall|a: usize, b: usize|
                                done.contains(a) && #[trigger] joined(parts, a, b) ==> b < n
                                    && seen@[b as int],
                            forall|q: int, b: usize|
                                0 <= q < p && parts[q].pins().contains(at)
                                    && #[trigger] parts[q].pins().contains(b) && b != GROUND ==> b < n
                                    && seen@[b as int],
                            forall|i: int| 0 <= i < j && pins@[i] != GROUND ==> #[trigger] pins@[i] < n
                                && seen@[pins@[i] as int],
                        decreases pins@.len() - j,
                    {
                        let pin = pins[j];
                        proof {
                            assert(parts[p as int].wired_within(n as int));
                            assert(pins@[j as int] == pin);
                        }
                        if pin != GROUND && !seen[pin] {
                            proof {
                                assert(joined(parts, at, pin)) by {
                                    assert(parts[p as int].pins().contains(pin));
                                }
                                let walk = choose|walk: Seq<usize>|
                                    is_walk(parts, walk) && walk[0] == from && walk.last() == at;
                                lemma_walk_extends(parts, walk, pin);
                                assert(walk.push(pin)[0] == from);
                                assert(walk.push(pin).last() == pin);
                                lemma_clear_count_set(seen@, pin as int);
                            }
                            let ghost waiting = stack@;
                            seen.set(pin, true);
                            stack.push(pin);
                            proof {
                                clear = clear_count(seen@);
                                assert forall|k: usize| k < n implies (#[trigger] seen@[k as int] <==> (
                                done.contains(k) || stack@.contains(k) || k == at)) by {
                                    if k == pin {
                                        assert(stack@[stack@.len() - 1] == pin);
                                    } else {
                                        assert(stack@ =~= waiting.push(pin));
                                        if stack@.contains(k) {
                                            let i = choose|i: int| 0 <= i < stack@.len() && stack@[i] == k;
                                            assert(waiting[i] == k);
                                        }
                                        if waiting.contains(k) {
                                            let i = choose|i: int| 0 <= i < waiting.len() && waiting[i] == k;
                                            assert(stack@[i] == k);
                                        }
                                    }
                                }
                            }
                        }
                        j = j + 1;
                    }
                    proof {
                        assert forall|q: int, b: usize|
                            0 <= q < p + 1 && parts[q].pins().contains(at)
                                && #[trigger] parts[q].pins().contains(b) && b != GROUND implies b < n
                                && seen@[b as int] by {
                            if q == p {
                                let i = choose|i: int| 0 <= i < pins@.len() && pins@[i] == b;
                                assert(pins@[i] != GROUND);
                            }
                        }
                    }
                }
                p = p + 1;
            }
            proof {
                assert forall|b: usize| #[trigger] joined(parts, at, b) implies b < n && seen@[b as int] by {
                    let q = choose|q: int|
                        0 <= q < parts.len() && (#[trigger] parts[q].pins()).contains(at)
                            && parts[q].pins().contains(b);
                }
                done = done.insert(at);
            }
        }
        proof {
            assert forall|a: usize, b: usize|
                done.contains(a) && #[trigger] joined(parts, a, b) implies done.contains(b) by {
                assert(seen@[b as int]);
            }
            assert(done.contains(from));
            if reachable(parts, from, to) {
                let walk = choose|walk: Seq<usize>| is_walk(parts, walk) && walk[0] == from && walk.last() == to;
                lemma_walk_stays(parts, walk, done, walk.len() - 1);
            }
        }
        false
    }
}


/// How many parts carry a current of their own as an unknown.
pub open spec fn branch_count(parts: Seq<Part>) -> nat
    decreases parts.len(),
{
    if parts.len() == 0 {
        0
    } else {
        branch_count(parts.drop_last()) + if parts.last().imposes_voltage() {
            1nat
        } else {
            0nat
        }
    }
}

proof fn lemma_branch_count_bounded(parts: Seq<Part>)
    ensures
        branch_count(parts) <= parts.len(),
    decreases parts.len(),
{
    if parts.len() > 0 {
        lemma_branch_count_bounded(parts.drop_last());
    }
}

/// A list of distinct indices, all inside `bound`, is no longer than `bound`.
proof fn lemma_distinct_within(list: Seq<usize>, bound: Set<usize>)
    requires
        list.no_duplicates(),
        bound.finite(),
        forall|i: int| 0 <= i < list.len() ==> bound.contains(#[trigger] list[i]),
    ensures
        list.len() <= bound.len(),
{
    list.unique_seq_to_set();
    assert(list.to_set().subset_of(bound)) by {
        assert forall|x: usize| list.to_set().contains(x) implies bound.contains(x) by {
            let i = choose|i: int| 0 <= i < list.len() && list[i] == x;
        }
    }
    vstd::set_lib::lemma_len_subset(list.to_set(), bound);
}

/// A list of distinct indices below `n` has at most `n` entries, and if it
/// has exactly `n` it holds every one of them.
proof fn lemma_distinct_below(list: Seq<usize>, n: usize)
    requires
        list.no_duplicates(),
        forall|i: int| 0 <= i < list.len() ==> #[trigger] list[i] < n,
    ensures
        list.len() <= n,
        list.len() == n ==> forall|k: usize| k < n ==> #[trigger] list.contains(k),
{
    let all = Set::<usize>::new(|k: usize| k < n);
    assert(all =~= Set::<usize>::range(0, n));
    vstd::set_lib::range_set_properties::<usize>(0, n);
    lemma_distinct_within(list, all);
    if list.len() == n {
        assert forall|k: usize| k < n implies #[trigger] list.contains(k) by {
            if !list.contains(k) {
                let fewer = all.remove(k);
                assert forall|i: int| 0 <= i < list.len() implies fewer.contains(#[trigger] list[i]) by {}
                lemma_distinct_within(list, fewer);
            }
        }
    }
}

/// Every list holds only indices below `total`.
pub open spec fn bounded(lists: Seq<Vec<usize>>, total: int) -> bool {
    forall|x: int, i: int|
        0 <= x < lists.len() && 0 <= i < lists[x]@.len() ==> #[trigger] lists[x]@[i] < total
}

/// `x` is a node this part is wired to, not ground.
pub open spec fn wired_to(part: Part, x: usize) -> bool {
    x != GROUND && part.pins().contains(x)
}

/// Where part `i` carries its own current, if it carries one: after every
/// node, in the order the branch-carrying parts come.
pub open spec fn branch_unknown(parts: Seq<Part>, nodes: int, i: int) -> int {
    nodes + branch_count(parts.subrange(0, i))
}

/// Part `i` puts `x` and `y` in each other's rows: two different nodes it is
/// wired to, or its own branch and a node it is wired to.
pub open spec fn couples(parts: Seq<Part>, nodes: int, i: int, x: usize, y: usize) -> bool {
    ||| x != y && wired_to(parts[i], x) && wired_to(parts[i], y)
    ||| parts[i].imposes_voltage() && x == branch_unknown(parts, nodes, i) && wired_to(parts[i], y)
    ||| parts[i].imposes_voltage() && y == branch_unknown(parts, nodes, i) && wired_to(parts[i], x)
}

/// Some part puts unknowns `x` and `y` in each other's rows. Ground joins
/// nothing.
pub open spec fn neighbours(parts: Seq<Part>, nodes: int, x: usize, y: usize) -> bool {
    exists|i: int| 0 <= i < parts.len() && #[trigger] couples(parts, nodes, i, x, y)
}

/// Every list is free of repeats.
pub open spec fn distinct_lists(lists: Seq<Vec<usize>>) -> bool {
    forall|x: int| 0 <= x < lists.len() ==> (#[trigger] lists[x])@.no_duplicates()
}

/// `y` is on `x`'s list.
pub open spec fn listed_in(lists: Seq<Vec<usize>>, x: usize, y: usize) -> bool {
    lists[x as int]@.contains(y)
}

/// Records that `a` and `b` touch, once.
fn link(lists: &mut Vec<Vec<usize>>, a: usize, b: usize)
    requires
        a < old(lists)@.len(),
        b < old(lists)@.len(),
        bounded(old(lists)@, old(lists)@.len() as int),
        distinct_lists(old(lists)@),
    ensures
        final(lists)@.len() == old(lists)@.len(),
        bounded(final(lists)@, final(lists)@.len() as int),
        distinct_lists(final(lists)@),
        forall|x: usize, y: usize|
            x < old(lists)@.len() ==> (#[trigger] listed_in(final(lists)@, x, y) <==> (listed_in(
                old(lists)@,
                x,
                y,
            ) || (x == a && y == b) || (x == b && y == a))),
{
    let ghost start = lists@;
    if !holds(&lists[a], b) {
        let ghost row = lists@[a as int]@;
        lists[a].push(b);
        proof {
            lemma_push_keeps_distinct(row, b);
            assert forall|x: usize, y: usize|
                x < start.len() implies (#[trigger] listed_in(lists@, x, y) <==> (listed_in(start, x, y) || (x
                == a && y == b))) by {
                if x == a {
                    lemma_contains_after_push(row, b, y);
                }
            }
        }
    }
    let ghost middle = lists@;
    if !holds(&lists[b], a) {
        let ghost row = lists@[b as int]@;
        lists[b].push(a);
        proof {
            lemma_push_keeps_distinct(row, a);
            assert forall|x: usize, y: usize|
                x < start.len() implies (#[trigger] listed_in(lists@, x, y) <==> (listed_in(middle, x, y) || (x
                == b && y == a))) by {
                if x == b {
                    lemma_contains_after_push(row, a, y);
                }
            }
        }
    }
}

/// Who touches whom: a node touches every other node of each part it is on,
/// and a branch touches every node of its part. Ground joins nothing. Each
/// list holds each neighbour once.
fn adjacency(parts: &[Part], nodes: usize, total: usize) -> (lists: Vec<Vec<usize>>)
    requires
        total == nodes + branch_count(parts@),
        forall|i: int| 0 <= i < parts@.len() ==> (#[trigger] parts@[i]).wired_within(nodes as int),
    ensures
        lists@.len() == total,
        bounded(lists@, total as int),
        distinct_lists(lists@),
        forall|x: usize, y: usize|
            x < total ==> (#[trigger] listed_in(lists@, x, y) <==> neighbours(parts@, nodes as int, x, y)),
{
    let mut lists: Vec<Vec<usize>> = Vec::new();
    while lists.len() < total
        invariant
            lists@.len() <= total,
            bounded(lists@, total as int),
            distinct_lists(lists@),
            forall|x: usize, y: usize| x < lists@.len() ==> !#[trigger] listed_in(lists@, x, y),
        decreases total - lists@.len(),
    {
        let ghost before = lists@;
        let empty: Vec<usize> = Vec::new();
        lists.push(empty);
        proof {
            assert forall|x: usize, y: usize| x < lists@.len() implies !#[trigger] listed_in(lists@, x, y) by {
                if x < before.len() {
                    assert(lists@[x as int] == before[x as int]);
                    assert(!listed_in(before, x, y));
                } else {
                    assert(lists@[x as int]@ == Seq::<usize>::empty());
                }
            }
        }
    }
    let mut branch = nodes;
    let mut p: usize = 0;
    while p < parts.len()
        invariant
            total == nodes + branch_count(parts@),
            forall|i: int| 0 <= i < parts@.len() ==> (#[trigger] parts@[i]).wired_within(nodes as int),
            0 <= p <= parts@.len(),
            branch == nodes + branch_count(parts@.subrange(0, p as int)),
            lists@.len() == total,
            bounded(lists@, total as int),
            distinct_lists(lists@),
            forall|x: usize, y: usize|
                x < total ==> (#[trigger] listed_in(lists@, x, y) <==> exists|i: int|
                    0 <= i < p && #[trigger] couples(parts@, nodes as int, i, x, y)),
        decreases parts@.len() - p,
    {
        proof {
            lemma_branch_count_prefix(parts@, p as int);
        }
        let ghost part = parts@[p as int];
        let ghost base = lists@;
        let touched = parts[p].touches();
        let mut pins: Vec<usize> = Vec::new();
        let mut i: usize = 0;
        while i < touched.len()
            invariant
                touched@ == part.pins(),
                part.wired_within(nodes as int),
                nodes <= total,
                0 <= i <= touched@.len(),
                forall|j: int| 0 <= j < pins@.len() ==> #[trigger] pins@[j] < nodes,
                forall|x: usize| #[trigger] pins@.contains(x) <==> (x != GROUND && touched@.subrange(
                    0,
                    i as int,
                ).contains(x)),
            decreases touched@.len() - i,
        {
            let pin = touched[i];
            assert(touched@[i as int] == pin);
            let ghost shorter = touched@.subrange(0, i as int);
            let ghost before = pins@;
            if pin != GROUND {
                pins.push(pin);
            }
            proof {
                assert(touched@.subrange(0, i + 1) =~= shorter.push(pin));
                assert forall|x: usize| #[trigger] pins@.contains(x) <==> (x != GROUND && touched@.subrange(
                    0,
                    i + 1,
                ).contains(x)) by {
                    lemma_contains_after_push(shorter, pin, x);
                    if pin != GROUND {
                        lemma_contains_after_push(before, pin, x);
                    }
                }
            }
            i = i + 1;
        }
        assert(touched@.subrange(0, touched@.len() as int) =~= touched@);
        // Every two different nodes of the part touch.
        let mut i: usize = 0;
        while i < pins.len()
            invariant
                nodes <= total,
                forall|j: int| 0 <= j < pins@.len() ==> #[trigger] pins@[j] < nodes,
                0 <= i <= pins@.len(),
                lists@.len() == total,
                bounded(lists@, total as int),
                distinct_lists(lists@),
                forall|x: usize, y: usize|
                    x < total ==> (#[trigger] listed_in(lists@, x, y) <==> (listed_in(base, x, y) || (x != y && (
                    (pins@.subrange(0, i as int).contains(x) && pins@.contains(y)) || (pins@.subrange(
                        0,
                        i as int,
                    ).contains(y) && pins@.contains(x)))))),
            decreases pins@.len() - i,
        {
            let a = pins[i];
            let ghost row_start = lists@;
            let mut j: usize = 0;
            while j < pins.len()
                invariant
                    nodes <= total,
                    forall|k: int| 0 <= k < pins@.len() ==> #[trigger] pins@[k] < nodes,
                    0 <= i < pins@.len(),
                    a == pins@[i as int],
                    0 <= j <= pins@.len(),
                    lists@.len() == total,
                    bounded(lists@, total as int),
                    distinct_lists(lists@),
                    forall|x: usize, y: usize|
                        x < total ==> (#[trigger] listed_in(lists@, x, y) <==> (listed_in(row_start, x, y) || (x
                            != y && ((x == a && pins@.subrange(0, j as int).contains(y)) || (y == a
                            && pins@.subrange(0, j as int).contains(x)))))),
                decreases pins@.len() - j,
            {
                let b = pins[j];
                let ghost shorter = pins@.subrange(0, j as int);
                let ghost before = lists@;
                if a != b {
                    link(&mut lists, a, b);
                }
                proof {
                    assert(pins@.subrange(0, j + 1) =~= shorter.push(b));
                    assert forall|x: usize, y: usize|
                        x < total implies (#[trigger] listed_in(lists@, x, y) <==> (listed_in(row_start, x, y)
                        || (x != y && ((x == a && pins@.subrange(0, j + 1).contains(y)) || (y == a
                        && pins@.subrange(0, j + 1).contains(x)))))) by {
                        lemma_contains_after_push(shorter, b, x);
                        lemma_contains_after_push(shorter, b, y);
                    }
                }
                j = j + 1;
            }
            proof {
                let shorter = pins@.subrange(0, i as int);
                assert(pins@.subrange(0, pins@.len() as int) =~= pins@);
                assert(pins@.subrange(0, i + 1) =~= shorter.push(a));
                assert forall|x: usize, y: usize|
                    x < total implies (#[trigger] listed_in(lists@, x, y) <==> (listed_in(base, x, y) || (x
                    != y && ((pins@.subrange(0, i + 1).contains(x) && pins@.contains(y)) || (
                    pins@.subrange(0, i + 1).contains(y) && pins@.contains(x)))))) by {
                    lemma_contains_after_push(shorter, a, x);
                    lemma_contains_after_push(shorter, a, y);
                }
            }
            i = i + 1;
        }
        assert(pins@.subrange(0, pins@.len() as int) =~= pins@);
        let ghost paired = lists@;
        // A branch touches every node of its part.
        let ghost carries = parts@[p as int].imposes_voltage();
        if parts[p].needs_branch() {
            let mut i: usize = 0;
            while i < pins.len()
                invariant
                    nodes <= total,
                    branch < total,
                    forall|j: int| 0 <= j < pins@.len() ==> #[trigger] pins@[j] < nodes,
                    0 <= i <= pins@.len(),
                    lists@.len() == total,
                    bounded(lists@, total as int),
                    distinct_lists(lists@),
                    forall|x: usize, y: usize|
                        x < total ==> (#[trigger] listed_in(lists@, x, y) <==> (listed_in(paired, x, y) || (x
                            == branch && pins@.subrange(0, i as int).contains(y)) || (y == branch
                            && pins@.subrange(0, i as int).contains(x)))),
                decreases pins@.len() - i,
            {
                let pin = pins[i];
                let ghost shorter = pins@.subrange(0, i as int);
                link(&mut lists, branch, pin);
                proof {
                    assert(pins@.subrange(0, i + 1) =~= shorter.push(pin));
                    assert forall|x: usize, y: usize|
                        x < total implies (#[trigger] listed_in(lists@, x, y) <==> (listed_in(paired, x, y)
                        || (x == branch && pins@.subrange(0, i + 1).contains(y)) || (y == branch
                        && pins@.subrange(0, i + 1).contains(x)))) by {
                        lemma_contains_after_push(shorter, pin, x);
                        lemma_contains_after_push(shorter, pin, y);
                    }
                }
                i = i + 1;
            }
            assert(pins@.subrange(0, pins@.len() as int) =~= pins@);
            branch = branch + 1;
        }
        proof {
            assert forall|x: usize, y: usize|
                x < total implies (#[trigger] listed_in(lists@, x, y) <==> exists|i: int|
                    0 <= i < p + 1 && #[trigger] couples(parts@, nodes as int, i, x, y)) by {
                assert(wired_to(part, x) <==> pins@.contains(x));
                assert(wired_to(part, y) <==> pins@.contains(y));
                assert(branch_unknown(parts@, nodes as int, p as int) == nodes + branch_count(
                    parts@.subrange(0, p as int),
                ));
                if couples(parts@, nodes as int, p as int, x, y) {
                } else if exists|i: int| 0 <= i < p + 1 && #[trigger] couples(parts@, nodes as int, i, x, y) {
                    let i = choose|i: int| 0 <= i < p + 1 && #[trigger] couples(parts@, nodes as int, i, x, y);
                    assert(i < p);
                }
            }
        }
        p = p + 1;
    }
    lists
}

/// Counting branches part by part.
proof fn lemma_branch_count_prefix(parts: Seq<Part>, p: int)
    requires
        0 <= p < parts.len(),
    ensures
        branch_count(parts.subrange(0, p + 1)) == branch_count(parts.subrange(0, p)) + if parts[p].imposes_voltage() {
            1nat
        } else {
            0nat
        },
        branch_count(parts.subrange(0, p + 1)) <= branch_count(parts),
{
    assert(parts.subrange(0, p + 1).drop_last() =~= parts.subrange(0, p));
    lemma_branch_count_monotone(parts, p + 1);
}

proof fn lemma_branch_count_monotone(parts: Seq<Part>, p: int)
    requires
        0 <= p <= parts.len(),
    ensures
        branch_count(parts.subrange(0, p)) <= branch_count(parts),
    decreases parts.len() - p,
{
    if p < parts.len() {
        lemma_branch_count_monotone(parts, p + 1);
        assert(parts.subrange(0, p + 1).drop_last() =~= parts.subrange(0, p));
    } else {
        assert(parts.subrange(0, p) =~= parts);
    }
}


/// `x` comes before `y` when it has fewer neighbours, or as many and a lower
/// index.
pub open spec fn fewer_neighbours(lists: Seq<Vec<usize>>, x: usize, y: usize) -> bool {
    ||| lists[x as int]@.len() < lists[y as int]@.len()
    ||| lists[x as int]@.len() == lists[y as int]@.len() && x < y
}

fn comes_before(lists: &Vec<Vec<usize>>, x: usize, y: usize) -> (earlier: bool)
    requires
        x < lists@.len(),
        y < lists@.len(),
    ensures
        earlier == fewer_neighbours(lists@, x, y),
{
    let dx = lists[x].len();
    let dy = lists[y].len();
    dx < dy || (dx == dy && x < y)
}

/// `candidates` in ascending order of neighbour count, ties by index.
fn by_degree(lists: &Vec<Vec<usize>>, candidates: &Vec<usize>) -> (ordered: Vec<usize>)
    requires
        forall|i: int| 0 <= i < candidates@.len() ==> #[trigger] candidates@[i] < lists@.len(),
    ensures
        ordered@.to_multiset() == candidates@.to_multiset(),
        forall|i: int| 0 <= i < ordered@.len() ==> #[trigger] ordered@[i] < lists@.len(),
        forall|i: int, j: int|
            0 <= i < j < ordered@.len() ==> !fewer_neighbours(lists@, #[trigger] ordered@[j], #[trigger] ordered@[i]),
{
    broadcast use vstd::multiset::group_multiset_axioms, vstd::seq_lib::group_to_multiset_ensures;
    let mut ordered: Vec<usize> = Vec::new();
    let mut c: usize = 0;
    while c < candidates.len()
        invariant
            0 <= c <= candidates@.len(),
            forall|i: int| 0 <= i < candidates@.len() ==> #[trigger] candidates@[i] < lists@.len(),
            ordered@.to_multiset() == candidates@.subrange(0, c as int).to_multiset(),
            forall|i: int| 0 <= i < ordered@.len() ==> #[trigger] ordered@[i] < lists@.len(),
            forall|i: int, j: int|
                0 <= i < j < ordered@.len() ==> !fewer_neighbours(
                    lists@,
                    #[trigger] ordered@[j],
                    #[trigger] ordered@[i],
                ),
        decreases candidates@.len() - c,
    {
        let x = candidates[c];
        let mut k: usize = 0;
        while k < ordered.len() && !comes_before(lists, x, ordered[k])
            invariant
                x < lists@.len(),
                0 <= k <= ordered@.len(),
                forall|i: int| 0 <= i < ordered@.len() ==> #[trigger] ordered@[i] < lists@.len(),
                forall|i: int| 0 <= i < k ==> !fewer_neighbours(lists@, x, #[trigger] ordered@[i]),
            decreases ordered@.len() - k,
        {
            k = k + 1;
        }
        let ghost earlier = ordered@;
        ordered.insert(k, x);
        proof {
            assert(ordered@ =~= earlier.subrange(0, k as int).push(x) + earlier.subrange(
                k as int,
                earlier.len() as int,
            ));
            assert(candidates@.subrange(0, c + 1) =~= candidates@.subrange(0, c as int).push(x));
            assert(ordered@ =~= earlier.insert(k as int, x));
            vstd::seq_lib::to_multiset_insert(earlier, k as int, x);
            vstd::seq_lib::to_multiset_build(candidates@.subrange(0, c as int), x);
            assert forall|i: int, j: int|
                0 <= i < j < ordered@.len() implies !fewer_neighbours(
                lists@,
                #[trigger] ordered@[j],
                #[trigger] ordered@[i],
            ) by {
                if j < k {
                    assert(ordered@[i] == earlier[i] && ordered@[j] == earlier[j]);
                } else if j == k {
                    assert(ordered@[i] == earlier[i]);
                } else if i == k {
                    assert(ordered@[j] == earlier[j - 1]);
                    assert(fewer_neighbours(lists@, x, earlier[k as int]));
                    if j - 1 > k {
                        assert(!fewer_neighbours(lists@, earlier[j - 1], earlier[k as int]));
                    }
                } else if i < k {
                    assert(ordered@[i] == earlier[i] && ordered@[j] == earlier[j - 1]);
                } else {
                    assert(ordered@[i] == earlier[i - 1] && ordered@[j] == earlier[j - 1]);
                }
            }
        }
        c = c + 1;
    }
    assert(candidates@.subrange(0, candidates@.len() as int) =~= candidates@);
    ordered
}


/// `x` goes before `y`: fewer neighbours, or as many and a lower index.
pub open spec fn ranks_before(degree: spec_fn(usize) -> nat, x: usize, y: usize) -> bool {
    degree(x) < degree(y) || (degree(x) == degree(y) && x < y)
}

/// `h` is the first position in `order` whose unknown neighbours the one at
/// position `p`.
pub open spec fn first_neighbour(adjacent: spec_fn(usize, usize) -> bool, order: Seq<usize>, p: int, h: int) -> bool {
    &&& 0 <= h < p
    &&& adjacent(order[h], order[p])
    &&& forall|q: int| 0 <= q < h ==> !adjacent(#[trigger] order[q], order[p])
}

/// The unknown at position `p` starts a new piece: everything before it has
/// had all of its neighbours listed already, and of the `total` unknowns not
/// yet listed it is the least connected, the lowest numbered among equals.
pub open spec fn starts_piece(
    adjacent: spec_fn(usize, usize) -> bool,
    degree: spec_fn(usize) -> nat,
    total: int,
    order: Seq<usize>,
    p: int,
) -> bool {
    &&& forall|q: int, y: usize| 0 <= q < p && #[trigger] adjacent(order[q], y) ==> order.subrange(0, p).contains(y)
    &&& forall|y: usize|
        y < total && !order.subrange(0, p).contains(y) ==> !#[trigger] ranks_before(degree, y, order[p])
}

/// `order` lists unknowns breadth first: each one either starts a piece or
/// follows from the first earlier unknown it neighbours (its parent, recorded
/// in `parents`), parents come in the order they were listed, and the
/// children of one parent come least connected first.
pub open spec fn breadth_first_by_degree(
    adjacent: spec_fn(usize, usize) -> bool,
    degree: spec_fn(usize) -> nat,
    total: int,
    order: Seq<usize>,
    parents: Seq<int>,
) -> bool {
    &&& parents.len() == order.len()
    &&& forall|p: int|
        0 <= p < order.len() ==> (#[trigger] parents[p] == -1 && starts_piece(
            adjacent,
            degree,
            total,
            order,
            p,
        )) || first_neighbour(adjacent, order, p, parents[p])
    &&& forall|p1: int, p2: int|
        0 <= p1 < p2 < order.len() && #[trigger] parents[p1] >= 0 && #[trigger] parents[p2] >= 0
            ==> parents[p1] <= parents[p2] && (parents[p1] == parents[p2] ==> ranks_before(
            degree,
            order[p1],
            order[p2],
        ))
}

/// Adjacency as the lists record it.
pub open spec fn list_adjacency(lists: Seq<Vec<usize>>) -> spec_fn(usize, usize) -> bool {
    |x: usize, y: usize| x < lists.len() && listed_in(lists, x, y)
}

/// Degree as the lists record it.
pub open spec fn list_degree(lists: Seq<Vec<usize>>) -> spec_fn(usize) -> nat {
    |x: usize|
        if x < lists.len() {
            lists[x as int]@.len()
        } else {
            0
        }
}

proof fn lemma_ranks_total(degree: spec_fn(usize) -> nat, a: usize, b: usize)
    ensures
        a == b || ranks_before(degree, a, b) || ranks_before(degree, b, a),
        !ranks_before(degree, a, a),
        ranks_before(degree, a, b) ==> !ranks_before(degree, b, a),
{
}

proof fn lemma_ranks_transitive(degree: spec_fn(usize) -> nat, a: usize, b: usize, c: usize)
    requires
        ranks_before(degree, a, b),
        ranks_before(degree, b, c),
    ensures
        ranks_before(degree, a, c),
{
}

/// Appending an unknown that starts a piece, or follows its first neighbour
/// after every parent so far, keeps the order breadth first.
proof fn lemma_order_extends(
    adjacent: spec_fn(usize, usize) -> bool,
    degree: spec_fn(usize) -> nat,
    total: int,
    order: Seq<usize>,
    parents: Seq<int>,
    m: usize,
    h: int,
)
    requires
        breadth_first_by_degree(adjacent, degree, total, order, parents),
        (h == -1 && starts_piece(adjacent, degree, total, order.push(m), order.len() as int))
            || first_neighbour(adjacent, order.push(m), order.len() as int, h),
        h >= 0 ==> forall|p: int|
            0 <= p < order.len() && #[trigger] parents[p] >= 0 ==> parents[p] <= h && (parents[p] == h
                ==> ranks_before(degree, order[p], m)),
    ensures
        breadth_first_by_degree(adjacent, degree, total, order.push(m), parents.push(h)),
{
    let longer = order.push(m);
    let ps = parents.push(h);
    assert forall|p: int|
        0 <= p < longer.len() implies (#[trigger] ps[p] == -1 && starts_piece(
        adjacent,
        degree,
        total,
        longer,
        p,
    )) || first_neighbour(adjacent, longer, p, ps[p]) by {
        if p < order.len() {
            assert(longer.subrange(0, p) =~= order.subrange(0, p));
            assert(ps[p] == parents[p]);
            if parents[p] == -1 && starts_piece(adjacent, degree, total, order, p) {
                assert forall|q: int, y: usize|
                    0 <= q < p && #[trigger] adjacent(longer[q], y) implies longer.subrange(0, p).contains(y) by {
                    assert(longer[q] == order[q]);
                }
                assert(longer[p] == order[p]);
            } else {
                assert(first_neighbour(adjacent, order, p, parents[p]));
                assert forall|q: int| 0 <= q < parents[p] implies !adjacent(#[trigger] longer[q], longer[p]) by {
                    assert(longer[q] == order[q]);
                }
            }
        }
    }
    assert forall|p1: int, p2: int|
        0 <= p1 < p2 < longer.len() && #[trigger] ps[p1] >= 0 && #[trigger] ps[p2] >= 0 implies ps[p1]
        <= ps[p2] && (ps[p1] == ps[p2] ==> ranks_before(degree, longer[p1], longer[p2])) by {
        if p2 < order.len() {
            assert(ps[p1] == parents[p1] && ps[p2] == parents[p2]);
        } else {
            assert(ps[p1] == parents[p1]);
            assert(ps[p2] == h);
        }
    }
}

/// Breadth first from the least connected node, taking each level's
/// neighbours in ascending degree so the front stays narrow. A circuit can be
/// several disconnected pieces, so every piece gets a turn.
fn breadth_first(lists: &Vec<Vec<usize>>) -> (sequence: Vec<usize>)
    requires
        bounded(lists@, lists@.len() as int),
        distinct_lists(lists@),
    ensures
        is_permutation_of(sequence@, lists@.len() as int),
        exists|parents: Seq<int>|
            breadth_first_by_degree(
                list_adjacency(lists@),
                list_degree(lists@),
                lists@.len() as int,
                sequence@,
                parents,
            ),
{
    let total = lists.len();
    let ghost adjacent = list_adjacency(lists@);
    let ghost degree = list_degree(lists@);
    let mut visited: Vec<bool> = Vec::new();
    while visited.len() < total
        invariant
            visited@.len() <= total,
            forall|k: int| 0 <= k < visited@.len() ==> !visited@[k],
        decreases total - visited@.len(),
    {
        visited.push(false);
    }
    let mut sequence: Vec<usize> = Vec::new();
    let ghost mut parents: Seq<int> = Seq::empty();
    let mut head: usize = 0;
    while sequence.len() < total
        invariant
            total == lists@.len(),
            adjacent == list_adjacency(lists@),
            degree == list_degree(lists@),
            bounded(lists@, total as int),
            distinct_lists(lists@),
            visited@.len() == total,
            sequence@.no_duplicates(),
            forall|i: int| 0 <= i < sequence@.len() ==> #[trigger] sequence@[i] < total,
            forall|k: usize| k < total ==> (visited@[k as int] <==> #[trigger] sequence@.contains(k)),
            head == sequence@.len(),
            breadth_first_by_degree(adjacent, degree, total as int, sequence@, parents),
            forall|q: int, y: usize|
                0 <= q < head && #[trigger] adjacent(sequence@[q], y) ==> sequence@.contains(y),
            forall|p: int| 0 <= p < parents.len() ==> #[trigger] parents[p] < head,
        decreases total - sequence@.len(),
    {
        // The least connected node nobody has reached yet.
        let mut start: usize = total;
        let mut candidate: usize = 0;
        while candidate < total
            invariant
                total == lists@.len(),
                degree == list_degree(lists@),
                visited@.len() == total,
                0 <= candidate <= total,
                start == total ==> forall|k: int| 0 <= k < candidate ==> visited@[k],
                start != total ==> start < candidate && !visited@[start as int] && forall|k: usize|
                    k < candidate && !visited@[k as int] ==> !#[trigger] ranks_before(degree, k, start),
            decreases total - candidate,
        {
            if !visited[candidate] && (start == total || comes_before(lists, candidate, start)) {
                proof {
                    if start != total {
                        assert(ranks_before(degree, candidate, start));
                        assert forall|k: usize|
                            k < candidate + 1 && !visited@[k as int] implies !#[trigger] ranks_before(
                            degree,
                            k,
                            candidate,
                        ) by {
                            if k < candidate && ranks_before(degree, k, candidate) {
                                lemma_ranks_transitive(degree, k, candidate, start);
                            }
                        }
                    }
                }
                start = candidate;
            } else {
                proof {
                    if start != total && !visited@[candidate as int] {
                        assert(!ranks_before(degree, candidate, start));
                    }
                }
            }
            candidate = candidate + 1;
        }
        proof {
            if start == total {
                assert forall|k: usize| k < total implies #[trigger] sequence@.contains(k) by {
                    assert(visited@[k as int]);
                }
                lemma_full_list_is_long(sequence@, total);
            }
        }
        let ghost before = sequence@;
        visited.set(start, true);
        sequence.push(start);
        proof {
            assert(!before.contains(start));
            lemma_push_keeps_distinct(before, start);
            assert forall|k: usize| k < total implies (visited@[k as int] <==> #[trigger] sequence@.contains(k)) by {
                lemma_contains_after_push(before, start, k);
            }
            assert(sequence@.subrange(0, before.len() as int) =~= before);
            assert forall|y: usize|
                y < total && !sequence@.subrange(0, before.len() as int).contains(y) implies !#[trigger] ranks_before(
                degree,
                y,
                sequence@[before.len() as int],
            ) by {
                assert(!visited@[y as int] || y == start);
                lemma_ranks_total(degree, y, start);
            }
            assert forall|q: int, y: usize|
                0 <= q < before.len() && #[trigger] adjacent(sequence@[q], y) implies sequence@.subrange(
                0,
                before.len() as int,
            ).contains(y) by {
                assert(sequence@[q] == before[q]);
            }
            lemma_order_extends(adjacent, degree, total as int, before, parents, start, -1);
            parents = parents.push(-1);
            assert forall|q: int, y: usize|
                0 <= q < head && #[trigger] adjacent(sequence@[q], y) implies sequence@.contains(y) by {
                assert(sequence@[q] == before[q]);
                lemma_contains_after_push(before, start, y);
            }
        }
        let ghost entering = before.len();
        while head < sequence.len()
            invariant
                total == lists@.len(),
                adjacent == list_adjacency(lists@),
                degree == list_degree(lists@),
                bounded(lists@, total as int),
                distinct_lists(lists@),
                visited@.len() == total,
                sequence@.no_duplicates(),
                forall|i: int| 0 <= i < sequence@.len() ==> #[trigger] sequence@[i] < total,
                forall|k: usize| k < total ==> (visited@[k as int] <==> #[trigger] sequence@.contains(k)),
                head <= sequence@.len(),
                sequence@.len() > entering,
                breadth_first_by_degree(adjacent, degree, total as int, sequence@, parents),
                forall|q: int, y: usize|
                    0 <= q < head && #[trigger] adjacent(sequence@[q], y) ==> sequence@.contains(y),
                forall|p: int| 0 <= p < parents.len() ==> #[trigger] parents[p] < head,
            decreases total - head,
        {
            proof {
                lemma_distinct_below(sequence@, total);
            }
            let node = sequence[head];
            let ghost h = head as int;
            let ghost listed = sequence@;
            head = head + 1;
            let mut candidates: Vec<usize> = Vec::new();
            let mut i: usize = 0;
            while i < lists[node].len()
                invariant
                    total == lists@.len(),
                    bounded(lists@, total as int),
                    visited@.len() == total,
                    forall|k: usize| k < total ==> (visited@[k as int] <==> #[trigger] listed.contains(k)),
                    node < total,
                    0 <= i <= lists@[node as int]@.len(),
                    forall|j: int| 0 <= j < candidates@.len() ==> #[trigger] candidates@[j] < total,
                    forall|j: int|
                        0 <= j < candidates@.len() ==> #[trigger] listed_in(lists@, node, candidates@[j]),
                    forall|j: int|
                        0 <= j < i ==> #[trigger] listed.contains(lists@[node as int]@[j])
                            || candidates@.contains(lists@[node as int]@[j]),
                decreases lists@[node as int]@.len() - i,
            {
                let m = lists[node][i];
                assert(lists@[node as int]@[i as int] < total);
                let ghost before = candidates@;
                if !visited[m] {
                    candidates.push(m);
                }
                proof {
                    assert forall|j: int|
                        0 <= j < i + 1 implies #[trigger] listed.contains(lists@[node as int]@[j])
                        || candidates@.contains(lists@[node as int]@[j]) by {
                        if j < i {
                            if before.contains(lists@[node as int]@[j]) {
                                lemma_contains_after_push(before, m, lists@[node as int]@[j]);
                            }
                        } else if !visited@[m as int] {
                            lemma_contains_after_push(before, m, m);
                        }
                    }
                    assert forall|j: int|
                        0 <= j < candidates@.len() implies #[trigger] listed_in(lists@, node, candidates@[j]) by {
                        if j == before.len() {
                            assert(lists@[node as int]@[i as int] == m);
                        } else {
                            assert(candidates@[j] == before[j]);
                        }
                    }
                }
                i = i + 1;
            }
            let next = by_degree(lists, &candidates);
            proof {
                broadcast use vstd::seq_lib::group_to_multiset_ensures;
                assert forall|x: usize| #[trigger] next@.contains(x) <==> candidates@.contains(x) by {
                    assert(next@.to_multiset().count(x) == candidates@.to_multiset().count(x));
                }
            }
            let ghost seg_start = sequence@.len() as int;
            let ghost mut taken: Seq<int> = Seq::empty();
            let mut i: usize = 0;
            while i < next.len()
                invariant
                    total == lists@.len(),
                    adjacent == list_adjacency(lists@),
                    degree == list_degree(lists@),
                    bounded(lists@, total as int),
                    distinct_lists(lists@),
                    visited@.len() == total,
                    sequence@.no_duplicates(),
                    forall|i: int| 0 <= i < sequence@.len() ==> #[trigger] sequence@[i] < total,
                    forall|k: usize| k < total ==> (visited@[k as int] <==> #[trigger] sequence@.contains(k)),
                    head == h + 1,
                    0 <= h < listed.len(),
                    listed[h] == node,
                    node < total,
                    seg_start == listed.len(),
                    seg_start <= sequence@.len(),
                    sequence@.subrange(0, seg_start) == listed,
                    breadth_first_by_degree(adjacent, degree, total as int, sequence@, parents),
                    forall|q: int, y: usize|
                        0 <= q < h && #[trigger] adjacent(sequence@[q], y) ==> sequence@.contains(y),
                    forall|p: int| 0 <= p < seg_start ==> #[trigger] parents[p] < h,
                    forall|p: int| seg_start <= p < parents.len() ==> #[trigger] parents[p] == h,
                    taken.len() == sequence@.len() - seg_start,
                    forall|k: int| 0 <= k < taken.len() ==> 0 <= #[trigger] taken[k] < i,
                    forall|k: int| 0 <= k < taken.len() ==> next@[taken[k]] == sequence@[seg_start + k],
                    forall|k1: int, k2: int|
                        0 <= k1 < k2 < taken.len() ==> #[trigger] taken[k1] < #[trigger] taken[k2],
                    forall|j: int| 0 <= j < next@.len() ==> #[trigger] next@[j] < total,
                    forall|x: usize| #[trigger] next@.contains(x) ==> listed_in(lists@, node, x),
                    forall|i: int, j: int|
                        0 <= i < j < next@.len() ==> !fewer_neighbours(
                            lists@,
                            #[trigger] next@[j],
                            #[trigger] next@[i],
                        ),
                    forall|j: int| 0 <= j < i ==> #[trigger] visited@[next@[j] as int],
                    0 <= i <= next@.len(),
                decreases next@.len() - i,
            {
                let m = next[i];
                assert(next@[i as int] < total);
                if !visited[m] {
                    let ghost before = sequence@;
                    proof {
                        assert(next@.contains(m));
                        assert(listed_in(lists@, node, m));
                        let longer = before.push(m);
                        assert(before.subrange(0, seg_start)[h] == before[h]);
                        assert(longer[h] == node);
                        assert forall|q: int| 0 <= q < h implies !adjacent(#[trigger] longer[q], longer[before.len() as int]) by {
                            assert(longer[q] == before[q]);
                        }
                        assert(first_neighbour(adjacent, longer, before.len() as int, h));
                        assert forall|p: int|
                            0 <= p < before.len() && #[trigger] parents[p] >= 0 implies parents[p] <= h && (
                            parents[p] == h ==> ranks_before(degree, before[p], m)) by {
                            if parents[p] == h {
                                assert(p >= seg_start);
                                let k = p - seg_start;
                                let earlier = next@[taken[k]];
                                assert(earlier == before[p]);
                                assert(!fewer_neighbours(lists@, m, earlier));
                                assert(earlier != m);
                                lemma_ranks_total(degree, earlier, m);
                            }
                        }
                        lemma_order_extends(adjacent, degree, total as int, before, parents, m, h);
                    }
                    visited.set(m, true);
                    sequence.push(m);
                    proof {
                        parents = parents.push(h);
                        taken = taken.push(i as int);
                        assert(!before.contains(m));
                        lemma_push_keeps_distinct(before, m);
                        assert forall|k: usize| k < total implies (visited@[k as int]
                            <==> #[trigger] sequence@.contains(k)) by {
                            lemma_contains_after_push(before, m, k);
                        }
                        assert(sequence@.subrange(0, seg_start) =~= before.subrange(0, seg_start));
                        assert forall|q: int, y: usize|
                            0 <= q < h && #[trigger] adjacent(sequence@[q], y) implies sequence@.contains(y) by {
                            assert(sequence@[q] == before[q]);
                            lemma_contains_after_push(before, m, y);
                        }
                    }
                }
                i = i + 1;
            }
            proof {
                assert forall|q: int, y: usize|
                    0 <= q < h + 1 && #[trigger] adjacent(sequence@[q], y) implies sequence@.contains(y) by {
                    if q == h {
                        assert(sequence@[h] == listed[h]);
                        assert(listed_in(lists@, node, y));
                        let j = choose|j: int| 0 <= j < lists@[node as int]@.len() && lists@[node as int]@[j] == y;
                        if listed.contains(y) {
                            let at = choose|at: int| 0 <= at < listed.len() && listed[at] == y;
                            assert(sequence@[at] == y);
                        } else {
                            assert(candidates@.contains(y));
                            assert(next@.contains(y));
                            let at = choose|at: int| 0 <= at < next@.len() && next@[at] == y;
                            assert(visited@[next@[at] as int]);
                            assert(y < total);
                        }
                    }
                }
                assert forall|p: int| 0 <= p < parents.len() implies #[trigger] parents[p] < head by {
                    if p < seg_start {
                    } else {
                        assert(parents[p] == h);
                    }
                }
            }
        }
        proof {
            lemma_distinct_below(sequence@, total);
        }
    }
    proof {
        lemma_distinct_below(sequence@, total);
    }
    sequence
}

pub(crate) proof fn lemma_push_keeps_distinct(list: Seq<usize>, x: usize)
    requires
        list.no_duplicates(),
        !list.contains(x),
    ensures
        list.push(x).no_duplicates(),
{
    let longer = list.push(x);
    assert forall|i: int, j: int| 0 <= i < longer.len() && 0 <= j < longer.len() && i != j implies longer[i] != longer[j] by {
        if i == list.len() {
            assert(list[j] == longer[j]);
        } else if j == list.len() {
            assert(list[i] == longer[i]);
        }
    }
}

pub(crate) proof fn lemma_contains_after_push(list: Seq<usize>, x: usize, k: usize)
    ensures
        list.push(x).contains(k) <==> (list.contains(k) || k == x),
{
    let longer = list.push(x);
    if longer.contains(k) && k != x {
        let i = choose|i: int| 0 <= i < longer.len() && longer[i] == k;
        assert(list[i] == k);
    }
    if list.contains(k) {
        let i = choose|i: int| 0 <= i < list.len() && list[i] == k;
        assert(longer[i] == k);
    }
    if k == x {
        assert(longer[list.len() as int] == k);
    }
}

/// A distinct list holding every index below `n` has at least `n` entries.
proof fn lemma_full_list_is_long(list: Seq<usize>, n: usize)
    requires
        forall|k: usize| k < n ==> #[trigger] list.contains(k),
    ensures
        list.len() >= n,
{
    let all = Set::<usize>::new(|k: usize| k < n);
    assert(all =~= Set::<usize>::range(0, n));
    vstd::set_lib::range_set_properties::<usize>(0, n);
    assert(all.subset_of(list.to_set())) by {
        assert forall|k: usize| all.contains(k) implies list.to_set().contains(k) by {
            assert(list.contains(k));
        }
    }
    vstd::seq_lib::seq_to_set_is_finite(list);
    vstd::set_lib::lemma_len_subset(all, list.to_set());
    list.lemma_cardinality_of_set();
}

/// Adjacency between the unknowns of a circuit: some part couples them.
pub open spec fn part_adjacency(parts: Seq<Part>, nodes: int) -> spec_fn(usize, usize) -> bool {
    |x: usize, y: usize| neighbours(parts, nodes, x, y)
}

/// How many distinct unknowns an unknown is coupled to.
pub open spec fn part_degree(parts: Seq<Part>, nodes: int) -> spec_fn(usize) -> nat {
    |x: usize| Set::new(|y: usize| neighbours(parts, nodes, x, y)).len()
}

/// `to` numbers the unknowns in reverse of `order`: the first unknown listed
/// gets the last number.
pub open spec fn numbers_in_reverse(to: Seq<usize>, order: Seq<usize>) -> bool {
    &&& order.len() == to.len()
    &&& forall|i: int| 0 <= i < order.len() ==> #[trigger] to[order[i] as int] == order.len() - 1 - i
}

/// Two coupled unknowns are both unknowns of the system.
proof fn lemma_neighbours_within(parts: Seq<Part>, nodes: int, x: usize, y: usize)
    requires
        forall|i: int| 0 <= i < parts.len() ==> (#[trigger] parts[i]).wired_within(nodes),
        neighbours(parts, nodes, x, y),
    ensures
        x < nodes + branch_count(parts),
        y < nodes + branch_count(parts),
{
    let i = choose|i: int| 0 <= i < parts.len() && #[trigger] couples(parts, nodes, i, x, y);
    lemma_branch_count_prefix(parts, i);
    assert(parts[i].wired_within(nodes));
    if wired_to(parts[i], x) {
        let k = choose|k: int| 0 <= k < parts[i].pins().len() && parts[i].pins()[k] == x;
    }
    if wired_to(parts[i], y) {
        let k = choose|k: int| 0 <= k < parts[i].pins().len() && parts[i].pins()[k] == y;
    }
}

/// Reverse Cuthill-McKee: a node numbering that keeps the matrix near its
/// diagonal. Branch rows take part in the ordering alongside the nodes they
/// constrain. The result maps each unknown's old index to its new one, and is
/// a permutation and nothing else: the same equations in a different order.
pub fn cuthill_mckee(parts: &[Part], nodes: usize) -> (to: Vec<usize>)
    requires
        forall|i: int| 0 <= i < parts@.len() ==> (#[trigger] parts@[i]).wired_within(nodes as int),
        nodes + parts@.len() <= usize::MAX,
    ensures
        is_permutation_of(to@, nodes + branch_count(parts@)),
        exists|order: Seq<usize>, parents: Seq<int>|
            #[trigger] numbers_in_reverse(to@, order) && #[trigger] breadth_first_by_degree(
                part_adjacency(parts@, nodes as int),
                part_degree(parts@, nodes as int),
                nodes + branch_count(parts@),
                order,
                parents,
            ),
{
    let mut branches: usize = 0;
    let mut p: usize = 0;
    while p < parts.len()
        invariant
            0 <= p <= parts@.len(),
            branches == branch_count(parts@.subrange(0, p as int)),
            branches <= p,
        decreases parts@.len() - p,
    {
        proof {
            lemma_branch_count_prefix(parts@, p as int);
        }
        if parts[p].needs_branch() {
            branches = branches + 1;
        }
        p = p + 1;
    }
    assert(parts@.subrange(0, parts@.len() as int) =~= parts@);
    let total = nodes + branches;
    if total == 0 {
        let to: Vec<usize> = Vec::new();
        assert(is_permutation_of(to@, 0));
        assert(numbers_in_reverse(to@, Seq::<usize>::empty()));
        assert(breadth_first_by_degree(
            part_adjacency(parts@, nodes as int),
            part_degree(parts@, nodes as int),
            0,
            Seq::<usize>::empty(),
            Seq::<int>::empty(),
        ));
        return to;
    }
    let lists = adjacency(parts, nodes, total);
    proof {
        assert forall|x: usize, y: usize|
            #[trigger] list_adjacency(lists@)(x, y) == part_adjacency(parts@, nodes as int)(x, y) by {
            if neighbours(parts@, nodes as int, x, y) {
                lemma_neighbours_within(parts@, nodes as int, x, y);
            }
        }
        assert(list_adjacency(lists@) =~= part_adjacency(parts@, nodes as int));
        assert forall|x: usize| #[trigger] list_degree(lists@)(x) == part_degree(parts@, nodes as int)(x) by {
            let coupled = Set::new(|y: usize| neighbours(parts@, nodes as int, x, y));
            if x < total {
                let row = lists@[x as int]@;
                assert forall|y: usize| row.to_set().contains(y) == coupled.contains(y) by {
                    assert(listed_in(lists@, x, y) == neighbours(parts@, nodes as int, x, y));
                }
                assert(row.to_set() =~= coupled);
                row.unique_seq_to_set();
            } else {
                assert forall|y: usize| !coupled.contains(y) by {
                    if neighbours(parts@, nodes as int, x, y) {
                        lemma_neighbours_within(parts@, nodes as int, x, y);
                    }
                }
                assert(coupled =~= Set::<usize>::empty());
            }
        }
        assert(list_degree(lists@) =~= part_degree(parts@, nodes as int));
    }
    let sequence = breadth_first(&lists);
    // Reversed, which is what makes it *Reverse* Cuthill-McKee: the same
    // bandwidth, but less fill-in during the elimination.
    let mut to: Vec<usize> = Vec::new();
    while to.len() < total
        invariant
            to@.len() <= total,
        decreases total - to@.len(),
    {
        to.push(0);
    }
    proof {
        lemma_distinct_below(sequence@, total);
        lemma_full_list_is_long(sequence@, total);
    }
    let mut position: usize = 0;
    while position < total
        invariant
            total == sequence@.len(),
            is_permutation_of(sequence@, total as int),
            to@.len() == total,
            0 <= position <= total,
            forall|j: int| total - position <= j < total ==> to@[#[trigger] sequence@[j] as int] == total - 1 - j,
        decreases total - position,
    {
        let node = sequence[total - 1 - position];
        let ghost before = to@;
        to.set(node, position);
        proof {
            assert forall|j: int| total - (position + 1) <= j < total implies to@[#[trigger] sequence@[j] as int] == total - 1 - j by {
                if j > total - 1 - position {
                    assert(sequence@[j] != node);
                }
            }
        }
        position = position + 1;
    }
    proof {
        assert forall|x: int| 0 <= x < total implies #[trigger] to@[x] < total by {
            assert(sequence@.contains(x as usize));
            let j = choose|j: int| 0 <= j < total && sequence@[j] == x as usize;
            assert(to@[sequence@[j] as int] == total - 1 - j);
        }
        assert forall|x: int, y: int| 0 <= x < total && 0 <= y < total && x != y implies to@[x] != to@[y] by {
            assert(sequence@.contains(x as usize));
            assert(sequence@.contains(y as usize));
            let i = choose|i: int| 0 <= i < total && sequence@[i] == x as usize;
            let j = choose|j: int| 0 <= j < total && sequence@[j] == y as usize;
            assert(to@[sequence@[i] as int] == total - 1 - i);
            assert(to@[sequence@[j] as int] == total - 1 - j);
        }
        assert forall|k: usize| k < total implies #[trigger] to@.contains(k) by {
            assert(to@[sequence@[total - 1 - k] as int] == k);
            assert(to@[sequence@[total - 1 - k] as int] == to@[sequence@[total - 1 - k] as int]);
        }
        assert(numbers_in_reverse(to@, sequence@));
        let parents = choose|parents: Seq<int>|
            breadth_first_by_degree(
                list_adjacency(lists@),
                list_degree(lists@),
                lists@.len() as int,
                sequence@,
                parents,
            );
        assert(breadth_first_by_degree(
            part_adjacency(parts@, nodes as int),
            part_degree(parts@, nodes as int),
            nodes + branch_count(parts@),
            sequence@,
            parents,
        ));
    }
    to
}


/// How many times `node` appears in `pins`.
pub open spec fn occurrences(pins: Seq<usize>, node: usize) -> nat
    decreases pins.len(),
{
    if pins.len() == 0 {
        0
    } else {
        occurrences(pins.drop_last(), node) + if pins.last() == node {
            1nat
        } else {
            0nat
        }
    }
}

/// How many part pins land on `node`: a part wired to it twice counts twice.
pub open spec fn connections(parts: Seq<Part>, node: usize) -> nat
    decreases parts.len(),
{
    if parts.len() == 0 {
        0
    } else {
        connections(parts.drop_last(), node) + occurrences(parts.last().pins(), node)
    }
}

/// The node of the first part that is an input, if there is one.
pub open spec fn first_input(parts: Seq<Part>) -> Option<usize>
    decreases parts.len(),
{
    if parts.len() == 0 {
        None
    } else {
        match parts[0] {
            Part::Input { node } => Some(node),
            _ => first_input(parts.drop_first()),
        }
    }
}

/// The first position holding `false`, if there is one.
pub open spec fn first_unset(flags: Seq<bool>) -> Option<int> {
    if exists|i: int| 0 <= i < flags.len() && !flags[i] {
        Some(choose|i: int| 0 <= i < flags.len() && !flags[i] && forall|j: int| 0 <= j < i ==> flags[j])
    } else {
        None
    }
}

/// The first node below `nodes` with fewer than two connections, if any.
pub open spec fn first_dangling(parts: Seq<Part>, nodes: usize) -> Option<usize> {
    if exists|k: usize| k < nodes && #[trigger] connections(parts, k) < 2 {
        Some(
            choose|k: usize|
                k < nodes && #[trigger] connections(parts, k) < 2 && forall|j: usize|
                    j < k ==> #[trigger] connections(parts, j) >= 2,
        )
    } else {
        None
    }
}

proof fn lemma_occurrences_bounded(pins: Seq<usize>, node: usize)
    ensures
        occurrences(pins, node) <= pins.len(),
    decreases pins.len(),
{
    if pins.len() > 0 {
        lemma_occurrences_bounded(pins.drop_last(), node);
    }
}

proof fn lemma_occurrences_push(pins: Seq<usize>, j: int, node: usize)
    requires
        0 <= j < pins.len(),
    ensures
        occurrences(pins.subrange(0, j + 1), node) == occurrences(pins.subrange(0, j), node) + if pins[j] == node {
            1nat
        } else {
            0nat
        },
{
    assert(pins.subrange(0, j + 1).drop_last() =~= pins.subrange(0, j));
}

proof fn lemma_connections_bounded(parts: Seq<Part>, node: usize)
    ensures
        connections(parts, node) <= 4 * parts.len(),
    decreases parts.len(),
{
    if parts.len() > 0 {
        lemma_connections_bounded(parts.drop_last(), node);
        lemma_occurrences_bounded(parts.last().pins(), node);
    }
}

proof fn lemma_connections_prefix(parts: Seq<Part>, p: int, node: usize)
    requires
        0 <= p < parts.len(),
    ensures
        connections(parts.subrange(0, p + 1), node) == connections(parts.subrange(0, p), node)
            + occurrences(parts[p].pins(), node),
{
    assert(parts.subrange(0, p + 1).drop_last() =~= parts.subrange(0, p));
}

proof fn lemma_connections_monotone(parts: Seq<Part>, p: int, node: usize)
    requires
        0 <= p <= parts.len(),
    ensures
        connections(parts.subrange(0, p), node) <= connections(parts, node),
    decreases parts.len() - p,
{
    if p < parts.len() {
        lemma_connections_monotone(parts, p + 1, node);
        lemma_connections_prefix(parts, p, node);
    } else {
        assert(parts.subrange(0, p) =~= parts);
    }
}

/// How many pins land on each node.
fn degrees(parts: &[Part], nodes: usize) -> (degree: Vec<usize>)
    requires
        forall|i: int| 0 <= i < parts@.len() ==> (#[trigger] parts@[i]).wired_within(nodes as int),
        4 * parts@.len() <= usize::MAX,
    ensures
        degree@.len() == nodes,
        forall|k: int| 0 <= k < nodes ==> #[trigger] degree@[k] == connections(parts@, k as usize),
{
    let mut degree: Vec<usize> = Vec::new();
    while degree.len() < nodes
        invariant
            degree@.len() <= nodes,
            forall|k: int| 0 <= k < degree@.len() ==> degree@[k] == 0,
        decreases nodes - degree@.len(),
    {
        degree.push(0);
    }
    let mut p: usize = 0;
    while p < parts.len()
        invariant
            forall|i: int| 0 <= i < parts@.len() ==> (#[trigger] parts@[i]).wired_within(nodes as int),
            4 * parts@.len() <= usize::MAX,
            0 <= p <= parts@.len(),
            degree@.len() == nodes,
            forall|k: int|
                0 <= k < nodes ==> #[trigger] degree@[k] == connections(parts@.subrange(0, p as int), k as usize),
        decreases parts@.len() - p,
    {
        let pins = parts[p].touches();
        let mut j: usize = 0;
        while j < pins.len()
            invariant
                forall|i: int| 0 <= i < parts@.len() ==> (#[trigger] parts@[i]).wired_within(nodes as int),
                4 * parts@.len() <= usize::MAX,
                0 <= p < parts@.len(),
                pins@ == parts@[p as int].pins(),
                0 <= j <= pins@.len(),
                degree@.len() == nodes,
                forall|k: int|
                    0 <= k < nodes ==> #[trigger] degree@[k] == connections(parts@.subrange(0, p as int), k as usize)
                        + occurrences(pins@.subrange(0, j as int), k as usize),
            decreases pins@.len() - j,
        {
            let pin = pins[j];
            proof {
                assert(parts@[p as int].wired_within(nodes as int));
                assert(pins@[j as int] == pin);
                assert forall|k: int| 0 <= k < nodes implies #[trigger] occurrences(pins@.subrange(0, j + 1), k as usize)
                    == occurrences(pins@.subrange(0, j as int), k as usize) + if pin == k as usize {
                    1nat
                } else {
                    0nat
                } by {
                    lemma_occurrences_push(pins@, j as int, k as usize);
                }
            }
            if pin != GROUND {
                proof {
                    lemma_connections_prefix(parts@, p as int, pin);
                    lemma_connections_monotone(parts@, p + 1, pin);
                    lemma_connections_bounded(parts@, pin);
                    lemma_occurrences_bounded(pins@.subrange(0, j as int), pin);
                    let whole = pins@;
                    assert(whole.subrange(0, j as int + 1).subrange(0, j as int) =~= whole.subrange(0, j as int));
                    lemma_occurrences_prefix_bounded(whole, j as int + 1, pin);
                }
                let count = degree[pin];
                degree.set(pin, count + 1);
            }
            j = j + 1;
        }
        proof {
            assert(pins@.subrange(0, pins@.len() as int) =~= pins@);
            assert forall|k: int| 0 <= k < nodes implies #[trigger] degree@[k] == connections(
                parts@.subrange(0, p + 1),
                k as usize,
            ) by {
                lemma_connections_prefix(parts@, p as int, k as usize);
            }
        }
        p = p + 1;
    }
    assert(parts@.subrange(0, parts@.len() as int) =~= parts@);
    degree
}

proof fn lemma_occurrences_prefix_bounded(pins: Seq<usize>, j: int, node: usize)
    requires
        0 <= j <= pins.len(),
    ensures
        occurrences(pins.subrange(0, j), node) <= occurrences(pins, node),
    decreases pins.len() - j,
{
    if j < pins.len() {
        lemma_occurrences_prefix_bounded(pins, j + 1, node);
        lemma_occurrences_push(pins, j, node);
    } else {
        assert(pins.subrange(0, j) =~= pins);
    }
}


/// What a netlist without the named output node is told.
pub open spec fn no_output_text(title: Seq<char>, output: Seq<char>) -> Seq<char> {
    "'"@ + title + "' has no node called '"@ + output + "' to take its output from"@
}

/// What a netlist without an input is told.
pub open spec fn no_input_text(title: Seq<char>) -> Seq<char> {
    "'"@ + title + "' has no input"@
}

/// What a netlist with a part whose value cannot be stamped is told.
pub open spec fn bad_value_text(kind: Seq<char>, title: Seq<char>) -> Seq<char> {
    "a "@ + kind + " in '"@ + title + "' has a value of zero or less"@
}

/// The name a branch row is reported under: `i` and its place among the
/// branches.
pub open spec fn branch_name(k: nat) -> Seq<char> {
    "i"@ + decimal(k)
}

/// A checked circuit.
#[derive(Clone)]
pub struct Circuit {
    pub name: &'static str,
    pub nodes: usize,
    /// How many parts carry a current of their own as an unknown.
    pub branches: usize,
    /// One per unknown: a node's name, or `i` and a number for a branch row.
    pub names: Vec<String>,
    /// Where each part's own current unknown sits, or `usize::MAX` for a part
    /// that has none.
    pub branch_row: Vec<usize>,
    pub parts: Vec<Part>,
    pub output: usize,
    pub controls: usize,
    /// The nodes given an initial voltage, renumbered, in the order given.
    pub initial_nodes: Vec<usize>,
    /// The controls given a resting position, in the order given.
    pub resting: Vec<usize>,
    /// Where each unknown of the netlist went.
    pub renumbering: Ghost<Seq<usize>>,
}


/// The build was refused as malformed, with this explanation.
pub open spec fn malformed<T>(built: Result<T, Fault>, text: Seq<char>) -> bool {
    built matches Err(Fault::Malformed(what)) && what@ == text
}

/// The build was refused over this node and its number of connections.
pub open spec fn dangling<T>(built: Result<T, Fault>, node: Seq<char>, count: nat) -> bool {
    built matches Err(Fault::Dangling { node: named, connections }) && named@ == node && connections == count
}

/// The build was refused because `to` cannot be reached from `from`.
pub open spec fn unreachable<T>(built: Result<T, Fault>, from: Seq<char>, to: Seq<char>) -> bool {
    built matches Err(Fault::Unreachable { from: start, to: end }) && start@ == from && end@ == to
}

/// The steps `build` takes in turn, each on its own.
impl Netlist {
    /// Where `output` is among the node names, if it is one.
    fn output_index(&self, output: &str) -> (at: Option<usize>)
        requires
            self.wf(),
        ensures
            at is None <==> !self.node_names().contains(output@),
            at matches Some(k) ==> k < self.node_names().len() && k == self.node_names().index_of(output@),
    {
        let ghost names = self.node_names();
        let n = self.order.len();
        let wanted = output.to_owned();
        let mut out: usize = 0;
        while out < n && !(self.order[out] == wanted)
            invariant
                n == self.order@.len(),
                names == self.node_names(),
                wanted@ == output@,
                0 <= out <= n,
                forall|i: int| 0 <= i < out ==> names[i] != output@,
            decreases n - out,
        {
            out = out + 1;
        }
        if out == n {
            assert(!names.contains(output@));
            return None;
        }
        proof {
            assert(names[out as int] == output@);
            assert(names.contains(output@));
            let other = names.index_of(output@);
            assert(other == out as int);
        }
        Some(out)
    }

    /// The node of the first input, and that it is ground or a named node.
    fn input_node(&self) -> (input: Option<usize>)
        requires
            self.wf(),
        ensures
            input == first_input(self.part_list()),
            input matches Some(node) ==> node == GROUND || node < self.node_names().len(),
    {
        let ghost parts = self.part_list();
        assert(parts.subrange(0, parts.len() as int) =~= parts);
        let mut p: usize = 0;
        while p < self.parts.len()
            invariant
                self.wf(),
                parts == self.parts@,
                0 <= p <= parts.len(),
                first_input(parts) == first_input(parts.subrange(p as int, parts.len() as int)),
            decreases parts.len() - p,
        {
            proof {
                let rest = parts.subrange(p as int, parts.len() as int);
                assert(rest.drop_first() =~= parts.subrange(p + 1, parts.len() as int));
                assert(rest[0] == parts[p as int]);
            }
            if let Part::Input { node } = self.parts[p] {
                proof {
                    assert(parts[p as int].wired_within(self.order@.len() as int));
                    assert(parts[p as int].pins() == seq![node]);
                    assert(parts[p as int].pins()[0] == node);
                }
                return Some(node);
            }
            p = p + 1;
        }
        assert(parts.subrange(p as int, parts.len() as int) =~= Seq::<Part>::empty());
        None
    }

    /// The first part whose value cannot be stamped, if any.
    fn first_unstampable(&self) -> (at: Option<usize>)
        requires
            self.wf(),
        ensures
            at matches Some(q) ==> q < self.part_list().len() && first_unset(self.stampable_list()) == Some(
                q as int,
            ),
            at is None ==> first_unset(self.stampable_list()) is None,
    {
        let mut q: usize = 0;
        while q < self.stampable.len()
            invariant
                self.wf(),
                0 <= q <= self.stampable@.len(),
                forall|j: int| 0 <= j < q ==> self.stampable@[j],
            decreases self.stampable@.len() - q,
        {
            if !self.stampable[q] {
                proof {
                    let flags = self.stampable@;
                    let first = first_unset(flags)->0;
                    assert(!flags[q as int]);
                    assert(0 <= first < flags.len() && !flags[first]);
                    assert(first == q as int);
                }
                return Some(q);
            }
            q = q + 1;
        }
        None
    }

    /// A name for every unknown: each node's name at the place the
    /// renumbering `to` gives it, and empty names where the branches go.
    fn name_unknowns(&self, permutation: &Vec<usize>, branches: usize) -> (order: Vec<String>)
        requires
            self.wf(),
            permutation@.len() == self.node_names().len() + branches,
            is_permutation_of(permutation@, self.node_names().len() + branches),
        ensures
            order@.len() == permutation@.len(),
            forall|j: int|
                0 <= j < self.node_names().len() ==> (#[trigger] order@[permutation@[j] as int])@
                    == self.node_names()[j],
    {
        let ghost names = self.node_names();
        let ghost to = permutation@;
        let n = self.order.len();
        let total = permutation.len();
        let mut order: Vec<String> = Vec::new();
        while order.len() < total
            invariant
                order@.len() <= total,
            decreases total - order@.len(),
        {
            order.push(String::new());
        }
        let mut old: usize = 0;
        while old < n
            invariant
                n == self.order@.len(),
                names == self.node_names(),
                to == permutation@,
                to.len() == total,
                n <= total,
                is_permutation_of(to, total as int),
                order@.len() == total,
                0 <= old <= n,
                forall|j: int| 0 <= j < old ==> (#[trigger] order@[to[j] as int])@ == names[j],
            decreases n - old,
        {
            let name = self.order[old].clone();
            let at = permutation[old];
            order.set(at, name);
            proof {
                assert forall|j: int| 0 <= j < old + 1 implies (#[trigger] order@[to[j] as int])@ == names[j] by {
                    if j < old {
                        assert(to[j] != to[old as int]);
                    }
                }
            }
            old = old + 1;
        }
        order
    }

    /// Names each branch row `i` and its place among the branches, and says
    /// where each part's own current landed.
    fn branch_rows(&self, order: &mut Vec<String>, permutation: &Vec<usize>, branches: usize) -> (branch_row: Vec<usize>)
        requires
            self.wf(),
            branches == branch_count(self.part_list()),
            permutation@.len() == self.node_names().len() + branches,
            is_permutation_of(permutation@, self.node_names().len() + branches),
            old(order)@.len() == permutation@.len(),
            forall|j: int|
                0 <= j < self.node_names().len() ==> (#[trigger] old(order)@[permutation@[j] as int])@
                    == self.node_names()[j],
        ensures
            final(order)@.len() == permutation@.len(),
            forall|j: int|
                0 <= j < self.node_names().len() ==> (#[trigger] final(order)@[permutation@[j] as int])@
                    == self.node_names()[j],
            forall|k: int|
                0 <= k < branches ==> (#[trigger] final(order)@[permutation@[self.node_names().len() + k] as int])@
                    == branch_name(k as nat),
            branch_row@.len() == self.part_list().len(),
            forall|j: int|
                0 <= j < self.part_list().len() ==> #[trigger] branch_row@[j] == if self.part_list()[j].imposes_voltage() {
                    permutation@[self.node_names().len() + branch_count(self.part_list().subrange(0, j)) as int]
                } else {
                    usize::MAX
                },
    {
        let ghost names = self.node_names();
        let ghost parts = self.part_list();
        let ghost to = permutation@;
        let n = self.order.len();
        let total = permutation.len();
        let mut branch_row: Vec<usize> = Vec::new();
        let mut next = n;
        let mut index: usize = 0;
        assert(parts.subrange(0, 0) =~= Seq::<Part>::empty());
        while index < self.parts.len()
            invariant
                self.wf(),
                parts == self.parts@,
                n == names.len(),
                names == self.node_names(),
                to == permutation@,
                to.len() == total,
                total == n + branch_count(parts),
                is_permutation_of(to, total as int),
                order@.len() == total,
                0 <= index <= parts.len(),
                next == n + branch_count(parts.subrange(0, index as int)),
                branch_row@.len() == index,
                forall|j: int| 0 <= j < n ==> (#[trigger] order@[to[j] as int])@ == names[j],
                forall|k: int|
                    0 <= k < next - n ==> (#[trigger] order@[to[n + k] as int])@ == branch_name(k as nat),
                forall|j: int|
                    0 <= j < index ==> #[trigger] branch_row@[j] == if parts[j].imposes_voltage() {
                        to[n + branch_count(parts.subrange(0, j))]
                    } else {
                        usize::MAX
                    },
            decreases parts.len() - index,
        {
            proof {
                lemma_branch_count_prefix(parts, index as int);
            }
            if self.parts[index].needs_branch() {
                let row = permutation[next];
                branch_row.push(row);
                let mut label = String::from_str("i");
                push_decimal(&mut label, next - n);
                order.set(row, label);
                proof {
                    assert forall|j: int| 0 <= j < n implies (#[trigger] order@[to[j] as int])@ == names[j] by {
                        assert(to[j] != to[next as int]);
                    }
                    assert forall|k: int|
                        0 <= k < next + 1 - n implies (#[trigger] order@[to[n + k] as int])@ == branch_name(
                        k as nat,
                    ) by {
                        if k < next - n {
                            assert(to[n + k] != to[next as int]);
                        }
                    }
                }
                next = next + 1;
            } else {
                branch_row.push(usize::MAX);
            }
            index = index + 1;
        }
        assert(parts.subrange(0, parts.len() as int) =~= parts);
        branch_row
    }

    /// Every part, moved to the numbering `to`.
    fn renumbered_parts(&self, permutation: &Vec<usize>) -> (renumbered: Vec<Part>)
        requires
            self.wf(),
            self.node_names().len() <= permutation@.len(),
        ensures
            renumbered@.len() == self.part_list().len(),
            forall|j: int|
                0 <= j < self.part_list().len() ==> #[trigger] renumbered@[j] == self.part_list()[j].renumbered(
                    permutation@,
                ),
    {
        let ghost parts = self.parts@;
        let ghost to = permutation@;
        let n = self.order.len();
        let mut renumbered: Vec<Part> = Vec::new();
        let mut index: usize = 0;
        while index < self.parts.len()
            invariant
                self.wf(),
                parts == self.parts@,
                n == self.order@.len(),
                to == permutation@,
                n <= to.len(),
                0 <= index <= parts.len(),
                renumbered@.len() == index,
                forall|j: int| 0 <= j < index ==> #[trigger] renumbered@[j] == parts[j].renumbered(to),
            decreases parts.len() - index,
        {
            let mut part = self.parts[index];
            proof {
                assert(parts[index as int].wired_within(n as int));
                assert forall|j: int| 0 <= j < part.pins().len() implies #[trigger] part.pins()[j] == GROUND
                    || part.pins()[j] < to.len() by {
                    assert(parts[index as int].pins()[j] == GROUND || parts[index as int].pins()[j] < n);
                }
            }
            part.renumber(permutation.as_slice());
            renumbered.push(part);
            index = index + 1;
        }
        renumbered
    }

    /// The nodes given an initial voltage, moved to the numbering `to`.
    fn renumbered_initial(&self, permutation: &Vec<usize>) -> (initial: Vec<usize>)
        requires
            self.wf(),
            self.node_names().len() <= permutation@.len(),
            forall|i: int| 0 <= i < self.initial_nodes().len() ==> #[trigger] self.initial_nodes()[i] != GROUND,
        ensures
            initial@ == self.initial_nodes().map_values(|node: usize| permutation@[node as int]),
    {
        let ghost to = permutation@;
        assert forall|i: int| 0 <= i < self.initial@.len() implies #[trigger] self.initial@[i] != GROUND by {
            assert(self.initial_nodes()[i] != GROUND);
        }
        let mut initial: Vec<usize> = Vec::new();
        let mut index: usize = 0;
        while index < self.initial.len()
            invariant
                self.wf(),
                to == permutation@,
                self.order@.len() <= to.len(),
                forall|i: int| 0 <= i < self.initial@.len() ==> #[trigger] self.initial@[i] != GROUND,
                0 <= index <= self.initial@.len(),
                initial@ =~= self.initial@.subrange(0, index as int).map_values(|node: usize| to[node as int]),
            decreases self.initial@.len() - index,
        {
            let node = self.initial[index];
            assert(self.initial@[index as int] != GROUND);
            initial.push(permutation[node]);
            index = index + 1;
        }
        assert(self.initial@.subrange(0, self.initial@.len() as int) =~= self.initial@);
        initial
    }
}

/// The first node connected fewer than twice, and how often it is.
fn loose_node(parts: &[Part], n: usize) -> (loose: Option<(usize, usize)>)
    requires
        forall|i: int| 0 <= i < parts@.len() ==> (#[trigger] parts@[i]).wired_within(n as int),
        4 * parts@.len() <= usize::MAX,
    ensures
        loose matches Some((k, count)) ==> k < n && first_dangling(parts@, n) == Some(k) && count == connections(
            parts@,
            k,
        ),
        loose is None ==> first_dangling(parts@, n) is None,
{
    let degree = degrees(parts, n);
    let mut k: usize = 0;
    while k < n
        invariant
            degree@.len() == n,
            forall|i: int| 0 <= i < n ==> #[trigger] degree@[i] == connections(parts@, i as usize),
            0 <= k <= n,
            forall|j: usize| j < k ==> #[trigger] connections(parts@, j) >= 2,
        decreases n - k,
    {
        if degree[k] < 2 {
            proof {
                assert(connections(parts@, k) < 2);
                let first = first_dangling(parts@, n)->0;
                assert(first == k);
            }
            return Some((k, degree[k]));
        }
        k = k + 1;
    }
    None
}

/// How many parts carry a current of their own as an unknown.
fn count_branches(parts: &[Part]) -> (branches: usize)
    ensures
        branches == branch_count(parts@),
        branches <= parts@.len(),
{
    let mut branches: usize = 0;
    let mut i: usize = 0;
    while i < parts.len()
        invariant
            0 <= i <= parts@.len(),
            branches == branch_count(parts@.subrange(0, i as int)),
            branches <= i,
        decreases parts@.len() - i,
    {
        proof {
            lemma_branch_count_prefix(parts@, i as int);
        }
        if parts[i].needs_branch() {
            branches = branches + 1;
        }
        i = i + 1;
    }
    assert(parts@.subrange(0, parts@.len() as int) =~= parts@);
    branches
}

impl Netlist {
    /// Every check `build` makes passes: the output is a named node, there is
    /// an input, every value can be stamped, every node is connected at least
    /// twice and the output can be reached from the input.
    pub open spec fn sound(&self, output: Seq<char>) -> bool {
        &&& self.node_names().contains(output)
        &&& first_input(self.part_list()) is Some
        &&& first_unset(self.stampable_list()) is None
        &&& first_dangling(self.part_list(), self.node_names().len() as usize) is None
        &&& reachable(
            self.part_list(),
            first_input(self.part_list())->0,
            self.node_names().index_of(output) as usize,
        )
    }

    /// The checks up to the reachability one pass.
    pub open spec fn connected_enough(&self, output: Seq<char>) -> bool {
        &&& self.node_names().contains(output)
        &&& first_input(self.part_list()) is Some
        &&& first_unset(self.stampable_list()) is None
        &&& first_dangling(self.part_list(), self.node_names().len() as usize) is None
    }

    /// `circuit` is this netlist laid out for the solver: the same parts,
    /// names and controls, every unknown moved through one permutation.
    pub open spec fn laid_out(&self, circuit: Circuit, output: Seq<char>) -> bool {
        let names = self.node_names();
        let parts = self.part_list();
        let n = names.len();
        let b = branch_count(parts);
        let to = circuit.renumbering@;
        &&& to.len() == n + b
        &&& is_permutation_of(to, (n + b) as int)
        &&& exists|order: Seq<usize>, parents: Seq<int>|
            #[trigger] numbers_in_reverse(to, order) && #[trigger] breadth_first_by_degree(
                part_adjacency(parts, n as int),
                part_degree(parts, n as int),
                (n + b) as int,
                order,
                parents,
            )
        &&& circuit.name@ == self.title()
        &&& circuit.nodes == n
        &&& circuit.branches == b
        &&& circuit.names@.len() == n + b
        &&& forall|old: int| 0 <= old < n ==> (#[trigger] circuit.names@[to[old] as int])@ == names[old]
        &&& forall|k: int|
            0 <= k < b ==> (#[trigger] circuit.names@[to[n + k] as int])@ == branch_name(k as nat)
        &&& circuit.branch_row@.len() == parts.len()
        &&& forall|i: int|
            0 <= i < parts.len() ==> #[trigger] circuit.branch_row@[i] == if parts[i].imposes_voltage() {
                to[(n + branch_count(parts.subrange(0, i))) as int]
            } else {
                usize::MAX
            }
        &&& circuit.parts@.len() == parts.len()
        &&& forall|i: int| 0 <= i < parts.len() ==> #[trigger] circuit.parts@[i] == parts[i].renumbered(to)
        &&& circuit.output == to[names.index_of(output)]
        &&& circuit.controls == self.control_count()
        &&& circuit.initial_nodes@ == self.initial_nodes().map_values(|node: usize| to[node as int])
        &&& circuit.resting@ == self.resting_controls()
    }

    /// The checks `build` makes before it looks for a path, in the same order
    /// and with the same refusals: a missing output, a missing input, a value
    /// that cannot be stamped and a node connected fewer than twice. Passing,
    /// it says where the output and the first input are.
    pub fn check_connected(&self, output: &str) -> (checked: Result<(usize, usize), Fault>)
        requires
            self.wf(),
            4 * self.part_list().len() <= usize::MAX,
        ensures
            !self.node_names().contains(output@) ==> malformed(
                checked,
                no_output_text(self.title(), output@),
            ),
            self.node_names().contains(output@) && first_input(self.part_list()) is None ==> malformed(
                checked,
                no_input_text(self.title()),
            ),
            self.node_names().contains(output@) && first_input(self.part_list()) is Some
                && first_unset(self.stampable_list()) is Some ==> malformed(
                checked,
                bad_value_text(
                    self.part_list()[first_unset(self.stampable_list())->0].kind(),
                    self.title(),
                ),
            ),
            self.node_names().contains(output@) && first_input(self.part_list()) is Some
                && first_unset(self.stampable_list()) is None && first_dangling(
                self.part_list(),
                self.node_names().len() as usize,
            ) is Some ==> ({
                let k = first_dangling(self.part_list(), self.node_names().len() as usize)->0;
                dangling(checked, self.node_names()[k as int], connections(self.part_list(), k))
            }),
            checked is Ok <==> self.connected_enough(output@),
            checked matches Ok((out, input)) ==> {
                &&& out == self.node_names().index_of(output@)
                &&& out < self.node_names().len()
                &&& first_input(self.part_list()) == Some(input)
                &&& (input == GROUND || input < self.node_names().len())
            },
    {
        let n = self.order.len();
        let out = match self.output_index(output) {
            Some(out) => out,
            None => {
                let mut what = String::from_str("'");
                what.append(self.name);
                what.append("' has no node called '");
                what.append(output);
                what.append("' to take its output from");
                return Err(Fault::Malformed(what));
            },
        };
        let input = match self.input_node() {
            Some(input) => input,
            None => {
                let mut what = String::from_str("'");
                what.append(self.name);
                what.append("' has no input");
                return Err(Fault::Malformed(what));
            },
        };
        if let Some(q) = self.first_unstampable() {
            let mut what = String::from_str("a ");
            what.append(self.parts[q].name());
            what.append(" in '");
            what.append(self.name);
            what.append("' has a value of zero or less");
            return Err(Fault::Malformed(what));
        }
        if let Some((k, count)) = loose_node(self.parts.as_slice(), n) {
            return Err(Fault::Dangling { node: self.order[k].clone(), connections: count });
        }
        Ok((out, input))
    }

    /// Checks the circuit and hands back something the solvers can use.
    ///
    /// The checks run in order and the first to fail is the answer: a missing
    /// output, a missing input, a value that cannot be stamped, a node
    /// connected fewer than twice, and an output the input cannot reach.
    /// Then the unknowns are renumbered by reverse Cuthill-McKee so the matrix
    /// is nearly banded.
    pub fn build(self, output: &str) -> (built: Result<Circuit, Fault>)
        requires
            self.wf(),
            self.node_names().len() + self.part_list().len() <= usize::MAX,
            4 * self.part_list().len() <= usize::MAX,
            self.connected_enough(output@) ==> first_input(self.part_list()) != Some(GROUND),
            self.sound(output@) ==> forall|i: int|
                0 <= i < self.initial_nodes().len() ==> #[trigger] self.initial_nodes()[i] != GROUND,
        ensures
            !self.node_names().contains(output@) ==> malformed(
                built,
                no_output_text(self.title(), output@),
            ),
            self.node_names().contains(output@) && first_input(self.part_list()) is None ==> malformed(
                built,
                no_input_text(self.title()),
            ),
            self.node_names().contains(output@) && first_input(self.part_list()) is Some
                && first_unset(self.stampable_list()) is Some ==> malformed(
                built,
                bad_value_text(
                    self.part_list()[first_unset(self.stampable_list())->0].kind(),
                    self.title(),
                ),
            ),
            self.node_names().contains(output@) && first_input(self.part_list()) is Some
                && first_unset(self.stampable_list()) is None && first_dangling(
                self.part_list(),
                self.node_names().len() as usize,
            ) is Some ==> ({
                let k = first_dangling(self.part_list(), self.node_names().len() as usize)->0;
                dangling(built, self.node_names()[k as int], connections(self.part_list(), k))
            }),
            self.connected_enough(output@) && !self.sound(output@) ==> unreachable(
                built,
                self.node_names()[first_input(self.part_list())->0 as int],
                output@,
            ),
            self.sound(output@) ==> (built matches Ok(circuit) && self.laid_out(circuit, output@)),
    {
        let n = self.order.len();
        let (out, input) = match self.check_connected(output) {
            Ok(found) => found,
            Err(fault) => return Err(fault),
        };
        if !self.reaches(input, out) {
            return Err(Fault::Unreachable { from: self.order[input].clone(), to: output.to_owned() });
        }
        assert(self.sound(output@));
        // Renumber the nodes so the matrix is nearly banded.
        let permutation = cuthill_mckee(self.parts.as_slice(), n);
        let branches = count_branches(self.parts.as_slice());
        let total = n + branches;
        let ghost to = permutation@;
        proof {
            lemma_distinct_below(to, total);
            lemma_full_list_is_long(to, total);
        }
        let mut order = self.name_unknowns(&permutation, branches);
        let branch_row = self.branch_rows(&mut order, &permutation, branches);
        let renumbered = self.renumbered_parts(&permutation);
        let initial = self.renumbered_initial(&permutation);
        let circuit = Circuit {
            name: self.name,
            nodes: n,
            branches,
            names: order,
            branch_row,
            parts: renumbered,
            output: permutation[out],
            controls: self.controls,
            initial_nodes: initial,
            resting: self.resting,
            renumbering: Ghost(to),
        };
        proof {
            assert(circuit.initial_nodes@ =~= self.initial_nodes().map_values(|node: usize| to[node as int]));
            assert(self.laid_out(circuit, output@));
        }
        Ok(circuit)
    }
}


impl Circuit {
    /// How big the matrix is: a row for every node, and one more for every
    /// part that imposes a voltage.
    pub fn unknowns(&self) -> (size: usize)
        requires
            self.nodes + self.branches <= usize::MAX,
        ensures
            size == self.nodes + self.branches,
    {
        self.nodes + self.branches
    }

    /// Where a branch-carrying part's own unknown sits. Looked up, not
    /// counted: branch rows are ordered along with the nodes.
    pub fn branch_of(&self, part: usize) -> (row: usize)
        requires
            part < self.branch_row@.len(),
        ensures
            row == self.branch_row@[part as int],
    {
        self.branch_row[part]
    }

    /// Whether every part has a frequency response, and therefore whether the
    /// AC solver can be asked about it.
    pub fn is_linear(&self) -> (linear: bool)
        ensures
            linear == forall|i: int| 0 <= i < self.parts@.len() ==> (#[trigger] self.parts@[i]).has_response(),
    {
        let mut i: usize = 0;
        while i < self.parts.len()
            invariant
                0 <= i <= self.parts@.len(),
                forall|j: int| 0 <= j < i ==> (#[trigger] self.parts@[j]).has_response(),
            decreases self.parts@.len() - i,
        {
            if !self.parts[i].is_linear() {
                return false;
            }
            i = i + 1;
        }
        true
    }

    /// What a node is called, for anything that has to report a problem.
    pub fn node_name(&self, at: usize) -> (name: &str)
        requires
            at == GROUND || at < self.names@.len(),
        ensures
            at == GROUND ==> name@ == "gnd"@,
            at != GROUND ==> name@ == self.names@[at as int]@,
    {
        if at == GROUND {
            "gnd"
        } else {
            self.names[at].as_str()
        }
    }
}


/// Asking for a name a second time changes nothing and gives the same
/// answer: a node keeps its index once it has one, and ground stays ground.
pub proof fn pinning_twice_changes_nothing(names: Seq<Seq<char>>, name: Seq<char>)
    requires
        names.no_duplicates(),
    ensures
        pin_spec(pin_spec(names, name).1, name) == pin_spec(names, name),
{
    let (at, after) = pin_spec(names, name);
    if !is_ground_name(name) && !names.contains(name) {
        let longer = names.push(name);
        assert(longer[names.len() as int] == name);
        assert(longer.contains(name));
        let found = longer.index_of(name);
        assert(0 <= found < longer.len() && longer[found] == name);
        if found < names.len() {
            assert(names[found] == name);
        }
    }
}

/// Renumbering is a permutation and nothing else: carried through a
/// renumbering and then through its inverse, a part is wired exactly as it
/// was.
pub proof fn renumbering_is_undone_by_its_inverse(part: Part, to: Seq<usize>, back: Seq<usize>)
    requires
        part.wired_within(to.len() as int),
        forall|i: int| 0 <= i < to.len() ==> #[trigger] to[i] < back.len() && back[to[i] as int] == i,
        forall|i: int| 0 <= i < to.len() ==> #[trigger] to[i] != GROUND,
    ensures
        part.renumbered(to).renumbered(back) == part,
{
    let pins = part.pins();
    assert(pins.len() > 0 ==> (pins[0] == GROUND || pins[0] < to.len()));
    assert(pins.len() > 1 ==> (pins[1] == GROUND || pins[1] < to.len()));
    assert(pins.len() > 2 ==> (pins[2] == GROUND || pins[2] < to.len()));
    assert(pins.len() > 3 ==> (pins[3] == GROUND || pins[3] < to.len()));
}

/// A walk read backwards is a walk.
proof fn lemma_walk_reversed(parts: Seq<Part>, walk: Seq<usize>)
    requires
        is_walk(parts, walk),
    ensures
        is_walk(parts, walk.reverse()),
{
    let back = walk.reverse();
    assert forall|i: int| 0 <= i < back.len() - 1 implies #[trigger] step_joined(parts, back, i) by {
        let j = walk.len() - 2 - i;
        assert(step_joined(parts, walk, j));
        assert(back[i] == walk[j + 1] && back[i + 1] == walk[j]);
        let q = choose|q: int|
            0 <= q < parts.len() && (#[trigger] parts[q].pins()).contains(walk[j]) && parts[q].pins().contains(walk[j + 1]);
    }
}

/// A signal that can get from one node to another can get back: every part
/// joins its nodes both ways.
pub proof fn reachability_is_symmetric(parts: Seq<Part>, from: usize, to: usize)
    requires
        reachable(parts, from, to),
    ensures
        reachable(parts, to, from),
{
    let walk = choose|walk: Seq<usize>| is_walk(parts, walk) && walk[0] == from && walk.last() == to;
    lemma_walk_reversed(parts, walk);
    let back = walk.reverse();
    assert(back[0] == to && back.last() == from);
}


/// Only the passive parts have a single frequency response: a resistor, a
/// capacitor, an inductor, a pot, a source or an ideal transformer. Every
/// part carrying a device model -- diode, triode, pentode, op-amp, JFET, core
/// or transistor -- has none, so a circuit holding one is never handed to the
/// AC solver.
pub proof fn only_passive_parts_have_a_response(part: Part)
    ensures
        part.has_response() <==> (part is Resistor || part is Capacitor || part is Inductor || part is Pot
            || part is Input || part is Supply || part is Transformer),
        part is Diode || part is Triode || part is Pentode || part is OpAmp || part is Jfet || part is Core
            || part is Bipolar ==> !part.has_response(),
{
}

/// Renumbering carries each pin in place: the renumbered part is the same
/// kind of part, its pins in the same order, each moved through `to` (ground
/// staying ground), and a pot keeps the control that turns it. No two
/// terminals ever trade places.
pub proof fn renumbering_moves_each_pin_in_place(part: Part, to: Seq<usize>)
    ensures
        part.renumbered(to).kind() == part.kind(),
        part.renumbered(to).pins() == part.pins().map_values(|pin: usize| moved(pin, to)),
        forall|j: int|
            0 <= j < part.pins().len() ==> #[trigger] part.renumbered(to).pins()[j] == moved(part.pins()[j], to),
        part is Pot ==> part.renumbered(to) is Pot && part.renumbered(to)->Pot_control == part->Pot_control,
{
    assert(part.renumbered(to).pins() =~= part.pins().map_values(|pin: usize| moved(pin, to)));
}

} // verus!
