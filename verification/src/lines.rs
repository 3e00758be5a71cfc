//! Reading one statement of the text format: which pattern a line matches,
//! and the node that the match describes.

use vstd::prelude::*;
use vstd::string::*;
use crate::case::{to_uppercase, uppercase_of};
use crate::node::{DAGNode, NodeView};
use crate::params::{
    param_of_text, params_of, valid_params_of_pieces, ParamExpr, ParamView, PiPattern,
};
use crate::pattern::{captures_of, group, group_text, groups_of, captures_in, Pattern};
use crate::text::{
    chars_of, has_suffix, index_value, parse_index, same_text, split, string_of,
};

verus! {

/// `reset q[n];`
pub const RESET_PATTERN: &'static str = r"^reset\s+q\[(\d+)\];?$";

/// `barrier` and what follows it.
pub const BARRIER_PATTERN: &'static str = r"^barrier\s+";

/// `measure q[n] -> c[m];`
pub const MEASURE_PATTERN: &'static str = r"^measure\s+q\[(\d+)\]\s*->\s*(\w+)\[(\d+)\];?$";

/// `if (c[m]==v) gate q[n];`
pub const IF_PATTERN: &'static str =
    r"^if\s*\(\s*(\w+)(?:\[(\d+)\])?\s*==\s*(\d+)\s*\)\s+(\w+)\s+q\[(\d+)\];?$";

/// `if (c[m]==v) gate(param) q[n];`
pub const IF_PARAM_PATTERN: &'static str =
    r"^if\s*\(\s*(\w+)(?:\[(\d+)\])?\s*==\s*(\d+)\s*\)\s+(\w+)\s*\(\s*(-?(?:\d*\.?\d*\*?pi(?:/\d+\.?\d*)?|\d+\.?\d*(?:[eE][+\-]?\d+)?))\s*\)\s+q\[(\d+)\];?$";

/// `gate q[a], q[b], q[c];`
pub const THREE_QUBIT_PATTERN: &'static str =
    r"^(\w+)\s+q\[(\d+)\],\s*q\[(\d+)\],\s*q\[(\d+)\];?$";

/// `gate(param) q[a], q[b];`
pub const TWO_QUBIT_PARAM_PATTERN: &'static str =
    r"^(\w+)\s*\(\s*(-?(?:\d*\.?\d*\*?pi(?:/\d+\.?\d*)?|\d+\.?\d*(?:[eE][+\-]?\d+)?))\s*\)\s+q\[(\d+)\],\s*q\[(\d+)\];?$";

/// `gate q[a], q[b];`
pub const TWO_QUBIT_PATTERN: &'static str = r"^(\w+)\s+q\[(\d+)\],\s*q\[(\d+)\];?$";

/// `gate(param, ..) q[n];`
pub const SINGLE_PARAM_PATTERN: &'static str =
    r"^(\w+)\s*\(\s*(-?(?:\d*\.?\d*\*?pi(?:/\d+\.?\d*)?|\d+\.?\d*(?:[eE][+\-]?\d+)?)(?:\s*,\s*-?(?:\d*\.?\d*\*?pi(?:/\d+\.?\d*)?|\d+\.?\d*(?:[eE][+\-]?\d+)?))*)\s*\)\s+q\[(\d+)\];?$";

/// `gate q[n];`
pub const SINGLE_PATTERN: &'static str = r"^(\w+)\s+q\[(\d+)\];?$";

/// `qreg name[n]`
pub const QREG_PATTERN: &'static str = r"qreg\s+(\w+)\[(\d+)\]";

/// `creg name[n]`
pub const CREG_PATTERN: &'static str = r"creg\s+(\w+)\[(\d+)\]";

/// `// noise kind q[n] param=value`, the parameter optional.
pub const NOISE_PATTERN: &'static str =
    r"^//\s*noise\s+(\w+)\s+q\[(\d+)\](?:\s+param=(-?(?:\d*\.?\d*\*?pi(?:/\d+\.?\d*)?|\d+\.?\d*(?:[eE][+\-]?\d+)?)))?$";

/// The patterns of the statements, compiled once for many lines.
pub struct Patterns {
    reset: Pattern,
    barrier: Pattern,
    measure: Pattern,
    guard: Pattern,
    guard_param: Pattern,
    three_qubit: Pattern,
    two_qubit_param: Pattern,
    two_qubit: Pattern,
    single_param: Pattern,
    single: Pattern,
    qreg: Pattern,
    creg: Pattern,
    noise: Pattern,
    pi: PiPattern,
}

impl Patterns {
    #[verifier::type_invariant]
    spec fn inv(self) -> bool {
        &&& self.reset.source() == RESET_PATTERN@
        &&& self.barrier.source() == BARRIER_PATTERN@
        &&& self.measure.source() == MEASURE_PATTERN@
        &&& self.guard.source() == IF_PATTERN@
        &&& self.guard_param.source() == IF_PARAM_PATTERN@
        &&& self.three_qubit.source() == THREE_QUBIT_PATTERN@
        &&& self.two_qubit_param.source() == TWO_QUBIT_PARAM_PATTERN@
        &&& self.two_qubit.source() == TWO_QUBIT_PATTERN@
        &&& self.single_param.source() == SINGLE_PARAM_PATTERN@
        &&& self.single.source() == SINGLE_PATTERN@
        &&& self.qreg.source() == QREG_PATTERN@
        &&& self.creg.source() == CREG_PATTERN@
        &&& self.noise.source() == NOISE_PATTERN@
        &&& self.pi.source() == crate::params::PI_PATTERN@
    }

    /// Compiles the patterns.
    pub fn new() -> (r: Patterns)
        ensures
            r.sources() == pattern_sources(),
    {
        Patterns {
            reset: Pattern::new(RESET_PATTERN),
            barrier: Pattern::new(BARRIER_PATTERN),
            measure: Pattern::new(MEASURE_PATTERN),
            guard: Pattern::new(IF_PATTERN),
            guard_param: Pattern::new(IF_PARAM_PATTERN),
            three_qubit: Pattern::new(THREE_QUBIT_PATTERN),
            two_qubit_param: Pattern::new(TWO_QUBIT_PARAM_PATTERN),
            two_qubit: Pattern::new(TWO_QUBIT_PATTERN),
            single_param: Pattern::new(SINGLE_PARAM_PATTERN),
            single: Pattern::new(SINGLE_PATTERN),
            qreg: Pattern::new(QREG_PATTERN),
            creg: Pattern::new(CREG_PATTERN),
            noise: Pattern::new(NOISE_PATTERN),
            pi: PiPattern::new(),
        }
    }

    /// The pattern of a multiple of pi.
    pub fn pi(&self) -> (r: &PiPattern)
        ensures
            *r == self.pi_pattern(),
            r.source() == crate::params::PI_PATTERN@,
    {
        proof {
            use_type_invariant(self);
        }
        &self.pi
    }

    /// The texts of the patterns that are held: those of the statements in
    /// the order in which they are tried, of the two registers, of the noise
    /// annotation, and of a multiple of pi.
    pub closed spec fn sources(&self) -> Seq<Seq<char>> {
        seq![
            self.reset.source(),
            self.barrier.source(),
            self.measure.source(),
            self.guard_param.source(),
            self.guard.source(),
            self.three_qubit.source(),
            self.two_qubit_param.source(),
            self.two_qubit.source(),
            self.single_param.source(),
            self.single.source(),
            self.qreg.source(),
            self.creg.source(),
            self.noise.source(),
            self.pi.source(),
        ]
    }

    /// The compiled pattern of a multiple of pi that is held.
    pub closed spec fn pi_pattern(&self) -> PiPattern {
        self.pi
    }

    /// What the pattern of a reset captures in `line`.
    pub fn match_reset(&self, line: &str) -> (r: Option<Vec<Option<String>>>)
        ensures
            captures_of(r) == captures_in(RESET_PATTERN@, line@),
    {
        proof {
            use_type_invariant(self);
        }
        self.reset.captures(line)
    }

    /// What the pattern of a barrier captures in `line`.
    pub fn match_barrier(&self, line: &str) -> (r: Option<Vec<Option<String>>>)
        ensures
            captures_of(r) == captures_in(BARRIER_PATTERN@, line@),
    {
        proof {
            use_type_invariant(self);
        }
        self.barrier.captures(line)
    }

    /// What the pattern of a measurement captures in `line`.
    pub fn match_measure(&self, line: &str) -> (r: Option<Vec<Option<String>>>)
        ensures
            captures_of(r) == captures_in(MEASURE_PATTERN@, line@),
    {
        proof {
            use_type_invariant(self);
        }
        self.measure.captures(line)
    }

    /// What the pattern of a guarded gate captures in `line`.
    pub fn match_guard(&self, line: &str) -> (r: Option<Vec<Option<String>>>)
        ensures
            captures_of(r) == captures_in(IF_PATTERN@, line@),
    {
        proof {
            use_type_invariant(self);
        }
        self.guard.captures(line)
    }

    /// What the pattern of a guarded gate with a parameter captures in `line`.
    pub fn match_guard_param(&self, line: &str) -> (r: Option<Vec<Option<String>>>)
        ensures
            captures_of(r) == captures_in(IF_PARAM_PATTERN@, line@),
    {
        proof {
            use_type_invariant(self);
        }
        self.guard_param.captures(line)
    }

    /// What the pattern of a gate on three qubits captures in `line`.
    pub fn match_three_qubit(&self, line: &str) -> (r: Option<Vec<Option<String>>>)
        ensures
            captures_of(r) == captures_in(THREE_QUBIT_PATTERN@, line@),
    {
        proof {
            use_type_invariant(self);
        }
        self.three_qubit.captures(line)
    }

    /// What the pattern of a gate with a parameter on two qubits captures in `line`.
    pub fn match_two_qubit_param(&self, line: &str) -> (r: Option<Vec<Option<String>>>)
        ensures
            captures_of(r) == captures_in(TWO_QUBIT_PARAM_PATTERN@, line@),
    {
        proof {
            use_type_invariant(self);
        }
        self.two_qubit_param.captures(line)
    }

    /// What the pattern of a gate on two qubits captures in `line`.
    pub fn match_two_qubit(&self, line: &str) -> (r: Option<Vec<Option<String>>>)
        ensures
            captures_of(r) == captures_in(TWO_QUBIT_PATTERN@, line@),
    {
        proof {
            use_type_invariant(self);
        }
        self.two_qubit.captures(line)
    }

    /// What the pattern of a gate with parameters on one qubit captures in `line`.
    pub fn match_single_param(&self, line: &str) -> (r: Option<Vec<Option<String>>>)
        ensures
            captures_of(r) == captures_in(SINGLE_PARAM_PATTERN@, line@),
    {
        proof {
            use_type_invariant(self);
        }
        self.single_param.captures(line)
    }

    /// What the pattern of a gate on one qubit captures in `line`.
    pub fn match_single(&self, line: &str) -> (r: Option<Vec<Option<String>>>)
        ensures
            captures_of(r) == captures_in(SINGLE_PATTERN@, line@),
    {
        proof {
            use_type_invariant(self);
        }
        self.single.captures(line)
    }

    /// What the pattern of a register of qubits captures in `line`.
    pub fn match_qreg(&self, line: &str) -> (r: Option<Vec<Option<String>>>)
        ensures
            captures_of(r) == captures_in(QREG_PATTERN@, line@),
    {
        proof {
            use_type_invariant(self);
        }
        self.qreg.captures(line)
    }

    /// What the pattern of a classical register captures in `line`.
    pub fn match_creg(&self, line: &str) -> (r: Option<Vec<Option<String>>>)
        ensures
            captures_of(r) == captures_in(CREG_PATTERN@, line@),
    {
        proof {
            use_type_invariant(self);
        }
        self.creg.captures(line)
    }

    /// What the pattern of a noise annotation captures in `line`.
    pub fn match_noise(&self, line: &str) -> (r: Option<Vec<Option<String>>>)
        ensures
            captures_of(r) == captures_in(NOISE_PATTERN@, line@),
    {
        proof {
            use_type_invariant(self);
        }
        self.noise.captures(line)
    }
}

/// The texts of all patterns: those of the statements in the order in which
/// they are tried, of the two registers, of the noise annotation, and of a
/// multiple of pi.
pub open spec fn pattern_sources() -> Seq<Seq<char>> {
    seq![
        RESET_PATTERN@,
        BARRIER_PATTERN@,
        MEASURE_PATTERN@,
        IF_PARAM_PATTERN@,
        IF_PATTERN@,
        THREE_QUBIT_PATTERN@,
        TWO_QUBIT_PARAM_PATTERN@,
        TWO_QUBIT_PATTERN@,
        SINGLE_PARAM_PATTERN@,
        SINGLE_PATTERN@,
        QREG_PATTERN@,
        CREG_PATTERN@,
        NOISE_PATTERN@,
        crate::params::PI_PATTERN@,
    ]
}

/// A classical register: its name and the place of its first bit among all
/// classical bits.
#[derive(Debug)]
pub struct Creg {
    pub name: String,
    pub start: usize,
}

/// The contents of a vector of classical registers.
pub open spec fn cregs_of(v: Seq<Creg>) -> Seq<(Seq<char>, usize)> {
    v.map_values(|c: Creg| (c.name@, c.start))
}

/// The first bit of the register of the given name: that of the register
/// declared last under the name.
pub open spec fn creg_start(cregs: Seq<(Seq<char>, usize)>, name: Seq<char>) -> Option<usize>
    decreases cregs.len(),
{
    if cregs.len() == 0 {
        None
    } else if cregs.last().0 == name {
        Some(cregs.last().1)
    } else {
        creg_start(cregs.drop_last(), name)
    }
}

/// The sum of two indices, held below `usize::MAX`.
pub open spec fn bounded_sum(a: usize, b: usize) -> usize {
    if a + b < usize::MAX {
        (a + b) as usize
    } else {
        (usize::MAX - 1) as usize
    }
}

/// The index that a captured text stands for.
pub open spec fn index_of_text(s: Seq<char>) -> usize {
    index_value(s) as usize
}

/// The classical bit that a register name and an optional index stand for:
/// the register's first bit plus the index; for an unknown register of the
/// form `c` and a number, that number; else bit 0.
pub open spec fn cbit_of(cregs: Seq<(Seq<char>, usize)>, name: Seq<char>, idx: Seq<char>)
    -> usize {
    match creg_start(cregs, name) {
        Some(start) => if idx.len() > 0 {
            bounded_sum(start, index_of_text(idx))
        } else {
            start
        },
        None => if name.len() > 0 && name[0] == 'c' {
            index_of_text(name.skip(1))
        } else {
            0
        },
    }
}

/// The parameter that `text` writes, or zero where it writes none.
pub open spec fn param_or_zero(text: Seq<char>) -> ParamView {
    match param_of_text(text) {
        Some(p) => p,
        None => ParamView::Number { text: "0"@ },
    }
}

/// The node of `reset q[n];`.
pub open spec fn reset_of(g: Seq<Option<Seq<char>>>) -> NodeView {
    NodeView {
        gate_type: "RESET"@,
        target: Some(index_of_text(group_text(g, 1))),
        is_reset: true,
        ..NodeView::blank()
    }
}

/// The node of a barrier.
pub open spec fn barrier_of() -> NodeView {
    NodeView { gate_type: "BARRIER"@, ..NodeView::blank() }
}

/// The node of a measurement of `source` into classical bit `cbit` that a
/// guarded gate follows, and whether the two are one node: that gate is
/// named `name` in upper case, is on `target`, and runs where classical bit
/// `cond` has the value `value`. Where it is an X that runs where the bit
/// just written is 1, the two become one node: an X on `target` that the
/// measurement of `source` controls.
pub open spec fn measure_then(
    source: usize,
    cbit: usize,
    cond: usize,
    value: usize,
    name: Seq<char>,
    target: usize,
) -> (NodeView, bool) {
    if cond == cbit && value == 1 && name == "X"@ {
        (
            NodeView {
                gate_type: "MCX"@,
                target: Some(target),
                measure_source: Some(source),
                ..NodeView::blank()
            },
            true,
        )
    } else {
        (NodeView { gate_type: "MEASURE"@, target: Some(source), ..NodeView::blank() }, false)
    }
}

/// The node of a measurement, matched as `g`, and whether it takes the next
/// line with it. Where the next line, matched as `h`, is an X that runs
/// where the bit just written is 1, the two become one node.
pub open spec fn measure_of(
    g: Seq<Option<Seq<char>>>,
    h: Option<Seq<Option<Seq<char>>>>,
    cregs: Seq<(Seq<char>, usize)>,
) -> (NodeView, bool) {
    let source = index_of_text(group_text(g, 1));
    let cbit = cbit_of(cregs, group_text(g, 2), group_text(g, 3));
    match h {
        Some(x) => measure_then(
            source,
            cbit,
            cbit_of(cregs, group_text(x, 1), group_text(x, 2)),
            index_of_text(group_text(x, 3)),
            uppercase_of(group_text(x, 4)),
            index_of_text(group_text(x, 5)),
        ),
        None => (
            NodeView { gate_type: "MEASURE"@, target: Some(source), ..NodeView::blank() },
            false,
        ),
    }
}

/// The node of a guarded gate with a parameter.
pub open spec fn if_param_of(g: Seq<Option<Seq<char>>>, cregs: Seq<(Seq<char>, usize)>)
    -> NodeView {
    NodeView {
        gate_type: uppercase_of(group_text(g, 4)),
        target: Some(index_of_text(group_text(g, 6))),
        params: seq![param_or_zero(group_text(g, 5))],
        classical_control: Some(cbit_of(cregs, group_text(g, 1), group_text(g, 2))),
        ..NodeView::blank()
    }
}

/// The node of a guarded gate.
pub open spec fn if_of(g: Seq<Option<Seq<char>>>, cregs: Seq<(Seq<char>, usize)>) -> NodeView {
    NodeView {
        gate_type: uppercase_of(group_text(g, 4)),
        target: Some(index_of_text(group_text(g, 5))),
        classical_control: Some(cbit_of(cregs, group_text(g, 1), group_text(g, 2))),
        ..NodeView::blank()
    }
}

/// The node of a gate on three qubits: two controls, then the target.
pub open spec fn three_qubit_of(g: Seq<Option<Seq<char>>>) -> NodeView {
    NodeView {
        gate_type: uppercase_of(group_text(g, 1)),
        target: Some(index_of_text(group_text(g, 4))),
        controls: seq![index_of_text(group_text(g, 2)), index_of_text(group_text(g, 3))],
        ..NodeView::blank()
    }
}

/// The node of a gate with a parameter on two qubits: the control, then
/// the target.
pub open spec fn two_qubit_param_of(g: Seq<Option<Seq<char>>>) -> NodeView {
    NodeView {
        gate_type: uppercase_of(group_text(g, 1)),
        target: Some(index_of_text(group_text(g, 4))),
        control: Some(index_of_text(group_text(g, 3))),
        params: seq![param_or_zero(group_text(g, 2))],
        ..NodeView::blank()
    }
}

/// The node of a gate on two qubits: the control, then the target.
pub open spec fn two_qubit_of(g: Seq<Option<Seq<char>>>) -> NodeView {
    NodeView {
        gate_type: uppercase_of(group_text(g, 1)),
        target: Some(index_of_text(group_text(g, 3))),
        control: Some(index_of_text(group_text(g, 2))),
        ..NodeView::blank()
    }
}

/// The node of a gate with parameters on one qubit. Entries of the list
/// that write no parameter are left out.
pub open spec fn single_param_of(g: Seq<Option<Seq<char>>>) -> NodeView {
    NodeView {
        gate_type: uppercase_of(group_text(g, 1)),
        target: Some(index_of_text(group_text(g, 3))),
        params: valid_params_of_pieces(split(group_text(g, 2), ',')),
        ..NodeView::blank()
    }
}

/// The node of a gate on `target` alone whose name in upper case is
/// `name`. A name that ends in `DG` stands for the inverse of what is named
/// before it.
pub open spec fn single_node(name: Seq<char>, target: usize) -> NodeView {
    let dagger = "DG"@.is_suffix_of(name);
    NodeView {
        gate_type: if dagger {
            name.take(name.len() - 2)
        } else {
            name
        },
        target: Some(target),
        is_dagger: dagger,
        ..NodeView::blank()
    }
}

/// The node of a gate on one qubit, matched as `g`.
pub open spec fn single_of(g: Seq<Option<Seq<char>>>) -> NodeView {
    single_node(uppercase_of(group_text(g, 1)), index_of_text(group_text(g, 2)))
}

/// The node that a line describes, and whether it takes the next line with
/// it; `None` for a line that is no statement. The first pattern that
/// matches decides: reset, barrier, measurement, guarded gate with a
/// parameter, guarded gate, three qubits, two qubits with a parameter, two
/// qubits, one qubit with parameters, one qubit.
pub open spec fn gate_of_line(
    line: Seq<char>,
    next: Option<Seq<char>>,
    cregs: Seq<(Seq<char>, usize)>,
) -> Option<(NodeView, bool)> {
    if captures_in(RESET_PATTERN@, line) is Some {
        Some((reset_of(captures_in(RESET_PATTERN@, line)->0), false))
    } else if captures_in(BARRIER_PATTERN@, line) is Some {
        Some((barrier_of(), false))
    } else if captures_in(MEASURE_PATTERN@, line) is Some {
        Some(
            measure_of(
                captures_in(MEASURE_PATTERN@, line)->0,
                match next {
                    Some(t) => captures_in(IF_PATTERN@, t),
                    None => None,
                },
                cregs,
            ),
        )
    } else if captures_in(IF_PARAM_PATTERN@, line) is Some {
        Some((if_param_of(captures_in(IF_PARAM_PATTERN@, line)->0, cregs), false))
    } else if captures_in(IF_PATTERN@, line) is Some {
        Some((if_of(captures_in(IF_PATTERN@, line)->0, cregs), false))
    } else if captures_in(THREE_QUBIT_PATTERN@, line) is Some {
        Some((three_qubit_of(captures_in(THREE_QUBIT_PATTERN@, line)->0), false))
    } else if captures_in(TWO_QUBIT_PARAM_PATTERN@, line) is Some {
        Some((two_qubit_param_of(captures_in(TWO_QUBIT_PARAM_PATTERN@, line)->0), false))
    } else if captures_in(TWO_QUBIT_PATTERN@, line) is Some {
        Some((two_qubit_of(captures_in(TWO_QUBIT_PATTERN@, line)->0), false))
    } else if captures_in(SINGLE_PARAM_PATTERN@, line) is Some {
        Some((single_param_of(captures_in(SINGLE_PARAM_PATTERN@, line)->0), false))
    } else if captures_in(SINGLE_PATTERN@, line) is Some {
        Some((single_of(captures_in(SINGLE_PATTERN@, line)->0), false))
    } else {
        None
    }
}

/// The index that group `i` of a match writes.
pub fn group_index(g: &Vec<Option<String>>, i: usize) -> (r: usize)
    ensures
        r == index_of_text(group_text(groups_of(g@), i as int)),
        r < usize::MAX,
{
    let t = group(g, i);
    parse_index(&chars_of(t.as_str()))
}

/// The name of a gate that group `i` of a match writes, in upper case.
pub fn group_name(g: &Vec<Option<String>>, i: usize) -> (r: String)
    ensures
        r@ == uppercase_of(group_text(groups_of(g@), i as int)),
{
    let t = group(g, i);
    to_uppercase(t.as_str())
}

/// The parameter that group `i` of a match writes, or zero.
pub fn group_param(pi: &PiPattern, g: &Vec<Option<String>>, i: usize) -> (r: ParamExpr)
    ensures
        r@ == param_or_zero(group_text(groups_of(g@), i as int)),
{
    let t = group(g, i);
    match pi.parse(t.as_str()) {
        Some(p) => p,
        None => ParamExpr::Number { text: String::from_str("0") },
    }
}

/// The sum of two indices, held below `usize::MAX`.
pub fn add_bounded(a: usize, b: usize) -> (r: usize)
    ensures
        r == bounded_sum(a, b),
        r < usize::MAX,
{
    if b < usize::MAX && a < usize::MAX - b {
        a + b
    } else {
        usize::MAX - 1
    }
}

/// The first bit of the register of the given name.
pub fn find_creg(cregs: &Vec<Creg>, name: &String) -> (r: Option<usize>)
    ensures
        r == creg_start(cregs_of(cregs@), name@),
{
    let mut i: usize = cregs.len();
    let ghost all = cregs_of(cregs@);
    assert(all.take(i as int) =~= all);
    while i > 0
        invariant
            i <= cregs.len(),
            all == cregs_of(cregs@),
            creg_start(all, name@) == creg_start(all.take(i as int), name@),
        decreases i,
    {
        assert(all.take(i as int).last() == (cregs@[i - 1].name@, cregs@[i - 1].start));
        assert(all.take(i as int).drop_last() =~= all.take(i - 1));
        if crate::dag::same_string(&cregs[i - 1].name, name) {
            return Some(cregs[i - 1].start);
        }
        i -= 1;
    }
    None
}

/// The classical bit that a register name and an optional index stand for.
pub fn resolve_cbit(cregs: &Vec<Creg>, name: &String, idx: &String) -> (r: usize)
    requires
        forall|i: int| 0 <= i < cregs@.len() ==> (#[trigger] cregs@[i]).start < usize::MAX,
    ensures
        r == cbit_of(cregs_of(cregs@), name@, idx@),
        r < usize::MAX,
{
    match find_creg(cregs, name) {
        Some(start) => {
            proof {
                lemma_creg_start_bound(cregs_of(cregs@), name@);
            }
            if !idx.as_str().is_empty() {
                add_bounded(start, parse_index(&chars_of(idx.as_str())))
            } else {
                start
            }
        },
        None => {
            let n = chars_of(name.as_str());
            if n.len() > 0 && n[0] == 'c' {
                let mut rest: Vec<char> = Vec::new();
                let mut i: usize = 1;
                while i < n.len()
                    invariant
                        1 <= i <= n.len(),
                        rest@ == n@.subrange(1, i as int),
                    decreases n.len() - i,
                {
                    rest.push(n[i]);
                    assert(n@.subrange(1, i as int).push(n@[i as int]) =~= n@.subrange(1, i + 1));
                    i += 1;
                }
                assert(n@.subrange(1, n@.len() as int) =~= n@.skip(1));
                parse_index(&rest)
            } else {
                0
            }
        },
    }
}

proof fn lemma_creg_start_bound(cregs: Seq<(Seq<char>, usize)>, name: Seq<char>)
    requires
        forall|i: int| 0 <= i < cregs.len() ==> (#[trigger] cregs[i]).1 < usize::MAX,
    ensures
        creg_start(cregs, name) is Some ==> creg_start(cregs, name)->0 < usize::MAX,
    decreases cregs.len(),
{
    if cregs.len() > 0 {
        assert(cregs[cregs.len() - 1].1 < usize::MAX);
        if cregs.last().0 != name {
            assert forall|i: int| 0 <= i < cregs.drop_last().len() implies (
            #[trigger] cregs.drop_last()[i]).1 < usize::MAX by {
                assert(cregs.drop_last()[i] == cregs[i]);
            }
            lemma_creg_start_bound(cregs.drop_last(), name);
        }
    }
}

/// The node of `reset q[n];`, matched as `g`.
pub fn reset_from(g: &Vec<Option<String>>) -> (r: DAGNode)
    ensures
        r@ == reset_of(groups_of(g@)),
        r@.fits(),
{
    let mut node = DAGNode::default();
    node.gate_type = String::from_str("RESET");
    node.target = Some(group_index(g, 1));
    node.is_reset = true;
    node
}

/// The node of a barrier.
pub fn barrier_from() -> (r: DAGNode)
    ensures
        r@ == barrier_of(),
        r@.fits(),
{
    let mut node = DAGNode::default();
    node.gate_type = String::from_str("BARRIER");
    node
}

/// The node of a measurement of `source` into classical bit `cbit` that a
/// guarded gate follows, and whether the two are one node. That gate is
/// named `name` in upper case, is on `target`, and runs where classical bit
/// `cond` has the value `value`.
pub fn measure_followed(
    source: usize,
    cbit: usize,
    cond: usize,
    value: usize,
    name: &str,
    target: usize,
) -> (r: (DAGNode, bool))
    ensures
        (r.0@, r.1) == measure_then(source, cbit, cond, value, name@, target),
{
    let mut node = DAGNode::default();
    if cond == cbit && value == 1 && same_text(name, "X") {
        node.gate_type = String::from_str("MCX");
        node.target = Some(target);
        node.measure_source = Some(source);
        (node, true)
    } else {
        node.gate_type = String::from_str("MEASURE");
        node.target = Some(source);
        (node, false)
    }
}

/// The node of a measurement, matched as `g`, and whether it takes the next
/// line, matched as `h`, with it.
pub fn measure_from(g: &Vec<Option<String>>, h: &Option<Vec<Option<String>>>, cregs: &Vec<Creg>)
    -> (r: (DAGNode, bool))
    requires
        forall|i: int| 0 <= i < cregs@.len() ==> (#[trigger] cregs@[i]).start < usize::MAX,
    ensures
        (r.0@, r.1) == measure_of(
            groups_of(g@),
            captures_of(*h),
            cregs_of(cregs@),
        ),
        r.0@.fits(),
{
    let source = group_index(g, 1);
    let cbit = resolve_cbit(cregs, &group(g, 2), &group(g, 3));
    match h {
        Some(hg) => {
            let cond = resolve_cbit(cregs, &group(hg, 1), &group(hg, 2));
            let name = group_name(hg, 4);
            measure_followed(
                source,
                cbit,
                cond,
                group_index(hg, 3),
                name.as_str(),
                group_index(hg, 5),
            )
        },
        None => {
            let mut node = DAGNode::default();
            node.gate_type = String::from_str("MEASURE");
            node.target = Some(source);
            (node, false)
        },
    }
}

/// The node of a guarded gate with a parameter, matched as `g`.
pub fn if_param_from(pi: &PiPattern, g: &Vec<Option<String>>, cregs: &Vec<Creg>) -> (r: DAGNode)
    requires
        forall|i: int| 0 <= i < cregs@.len() ==> (#[trigger] cregs@[i]).start < usize::MAX,
    ensures
        r@ == if_param_of(groups_of(g@), cregs_of(cregs@)),
        r@.fits(),
{
    let mut node = DAGNode::default();
    node.gate_type = group_name(g, 4);
    node.target = Some(group_index(g, 6));
    let mut params: Vec<ParamExpr> = Vec::new();
    let p = group_param(pi, g, 5);
    let ghost pv = p@;
    params.push(p);
    assert(params_of(params@) =~= seq![pv]);
    node.params = params;
    node.classical_control = Some(resolve_cbit(cregs, &group(g, 1), &group(g, 2)));
    node
}

/// The node of a guarded gate, matched as `g`.
pub fn if_from(g: &Vec<Option<String>>, cregs: &Vec<Creg>) -> (r: DAGNode)
    requires
        forall|i: int| 0 <= i < cregs@.len() ==> (#[trigger] cregs@[i]).start < usize::MAX,
    ensures
        r@ == if_of(groups_of(g@), cregs_of(cregs@)),
        r@.fits(),
{
    let mut node = DAGNode::default();
    node.gate_type = group_name(g, 4);
    node.target = Some(group_index(g, 5));
    node.classical_control = Some(resolve_cbit(cregs, &group(g, 1), &group(g, 2)));
    node
}

/// The node of a gate on three qubits, matched as `g`.
pub fn three_qubit_from(g: &Vec<Option<String>>) -> (r: DAGNode)
    ensures
        r@ == three_qubit_of(groups_of(g@)),
        r@.fits(),
{
    let mut node = DAGNode::default();
    node.gate_type = group_name(g, 1);
    node.target = Some(group_index(g, 4));
    let mut controls: Vec<usize> = Vec::new();
    controls.push(group_index(g, 2));
    controls.push(group_index(g, 3));
    assert(controls@ =~= seq![
        index_of_text(group_text(groups_of(g@), 2)),
        index_of_text(group_text(groups_of(g@), 3)),
    ]);
    proof {
        crate::gates::lemma_past_all_bound(controls@);
    }
    node.controls = controls;
    node
}

/// The node of a gate with a parameter on two qubits, matched as `g`.
pub fn two_qubit_param_from(pi: &PiPattern, g: &Vec<Option<String>>) -> (r: DAGNode)
    ensures
        r@ == two_qubit_param_of(groups_of(g@)),
        r@.fits(),
{
    let mut node = DAGNode::default();
    node.gate_type = group_name(g, 1);
    node.target = Some(group_index(g, 4));
    node.control = Some(group_index(g, 3));
    let mut params: Vec<ParamExpr> = Vec::new();
    let p = group_param(pi, g, 2);
    let ghost pv = p@;
    params.push(p);
    assert(params_of(params@) =~= seq![pv]);
    node.params = params;
    node
}

/// The node of a gate on two qubits, matched as `g`.
pub fn two_qubit_from(g: &Vec<Option<String>>) -> (r: DAGNode)
    ensures
        r@ == two_qubit_of(groups_of(g@)),
        r@.fits(),
{
    let mut node = DAGNode::default();
    node.gate_type = group_name(g, 1);
    node.target = Some(group_index(g, 3));
    node.control = Some(group_index(g, 2));
    node
}

/// The node of a gate with parameters on one qubit, matched as `g`.
pub fn single_param_from(pi: &PiPattern, g: &Vec<Option<String>>) -> (r: DAGNode)
    ensures
        r@ == single_param_of(groups_of(g@)),
        r@.fits(),
{
    let mut node = DAGNode::default();
    node.gate_type = group_name(g, 1);
    node.target = Some(group_index(g, 3));
    node.params = pi.parse_valid(group(g, 2).as_str());
    node
}

/// The node of a gate on `target` alone whose name in upper case is
/// `name`. A name that ends in `DG` stands for the inverse of what is named
/// before it.
pub fn single_named(name: String, target: usize) -> (r: DAGNode)
    ensures
        r@ == single_node(name@, target),
{
    let mut node = DAGNode::default();
    let chars = chars_of(name.as_str());
    if has_suffix(&chars, "DG") {
        proof {
            reveal_strlit("DG");
        }
        let mut base: Vec<char> = Vec::new();
        let mut i: usize = 0;
        while i < chars.len() - 2
            invariant
                chars.len() >= 2,
                i <= chars.len() - 2,
                base@ == chars@.take(i as int),
            decreases chars.len() - i,
        {
            base.push(chars[i]);
            assert(chars@.take(i as int).push(chars@[i as int]) =~= chars@.take(i + 1));
            i += 1;
        }
        node.gate_type = string_of(&base);
        node.is_dagger = true;
    } else {
        node.gate_type = name;
    }
    node.target = Some(target);
    node
}

/// The node of a gate on one qubit, matched as `g`.
pub fn single_from(g: &Vec<Option<String>>) -> (r: DAGNode)
    ensures
        r@ == single_of(groups_of(g@)),
        r@.fits(),
{
    single_named(group_name(g, 1), group_index(g, 2))
}

/// The view of an optional node with a flag.
pub open spec fn opt_gate(r: Option<(DAGNode, bool)>) -> Option<(NodeView, bool)> {
    match r {
        Some(x) => Some((x.0@, x.1)),
        None => None,
    }
}

/// Reads one statement: the node that `line` describes, and whether it
/// takes the next line with it. `line` and `next` are taken as they are.
pub fn parse_gate_line(
    patterns: &Patterns,
    line: &str,
    next: Option<&str>,
    cregs: &Vec<Creg>,
) -> (r: Option<(DAGNode, bool)>)
    requires
        forall|i: int| 0 <= i < cregs@.len() ==> (#[trigger] cregs@[i]).start < usize::MAX,
    ensures
        opt_gate(r) == gate_of_line(
            line@,
            match next {
                Some(t) => Some(t@),
                None => None,
            },
            cregs_of(cregs@),
        ),
        r matches Some(x) ==> x.0@.fits(),
{
    if let Some(g) = patterns.match_reset(line) {
        return Some((reset_from(&g), false));
    }
    if patterns.match_barrier(line).is_some() {
        return Some((barrier_from(), false));
    }
    if let Some(g) = patterns.match_measure(line) {
        let h = match next {
            Some(t) => patterns.match_guard(t),
            None => None,
        };
        return Some(measure_from(&g, &h, cregs));
    }
    if let Some(g) = patterns.match_guard_param(line) {
        return Some((if_param_from(patterns.pi(), &g, cregs), false));
    }
    if let Some(g) = patterns.match_guard(line) {
        return Some((if_from(&g, cregs), false));
    }
    if let Some(g) = patterns.match_three_qubit(line) {
        return Some((three_qubit_from(&g), false));
    }
    if let Some(g) = patterns.match_two_qubit_param(line) {
        return Some((two_qubit_param_from(patterns.pi(), &g), false));
    }
    if let Some(g) = patterns.match_two_qubit(line) {
        return Some((two_qubit_from(&g), false));
    }
    if let Some(g) = patterns.match_single_param(line) {
        return Some((single_param_from(patterns.pi(), &g), false));
    }
    if let Some(g) = patterns.match_single(line) {
        return Some((single_from(&g), false));
    }
    None
}

} // verus!
