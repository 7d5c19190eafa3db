//! The parts of a module graph: modules, their signals, and the instances of one
//! module in another. The parts refer to one another by position.

use crate::words::mask_in_numbers;
use vstd::arithmetic::power2::pow2;
use vstd::hash_map::StringHashMap;
use vstd::prelude::*;

verus! {

/// Positions by name: of the outputs of a module, of the drivers of an instance's inputs,
/// or of the modules of a context.
pub struct Ports {
    positions: StringHashMap<usize>,
}

impl View for Ports {
    type V = Map<Seq<char>, usize>;

    closed spec fn view(&self) -> Map<Seq<char>, usize> {
        self.positions@
    }
}

impl Ports {
    /// Creates a table without entries.
    pub fn new() -> (ports: Ports)
        ensures
            ports@ == Map::<Seq<char>, usize>::empty(),
    {
        Ports { positions: StringHashMap::new() }
    }

    /// Binds `name` to `position`.
    pub fn insert(&mut self, name: String, position: usize)
        ensures
            final(self)@ == old(self)@.insert(name@, position),
    {
        self.positions.insert(name, position);
    }

    /// Returns the position that `name` is bound to.
    pub fn get(&self, name: &str) -> (position: Option<usize>)
        ensures
            position == (if self@.contains_key(name@) {
                Some(self@[name@])
            } else {
                None
            }),
    {
        match self.positions.get(name) {
            Some(position) => Some(*position),
            None => None,
        }
    }
}

/// A module: a named part of a design with outputs that its instances expose.
pub struct Module {
    pub name: String,
    pub outputs: Ports,
}

impl Module {
    /// Creates a module without outputs.
    pub fn new(name: String) -> (module: Module)
        ensures
            module.name@ == name@,
            module.outputs@ == Map::<Seq<char>, usize>::empty(),
    {
        Module { name, outputs: Ports::new() }
    }
}

/// An instance of a module inside another, with the signals that drive its inputs.
pub struct Instance {
    /// The position of the module that this is an instance of.
    pub instantiated_module: usize,
    pub driven_inputs: Ports,
}

/// A literal.
#[derive(Clone, Copy, PartialEq, Eq, Structural, Debug)]
pub enum Value {
    Bool(bool),
    U32(u32),
    U64(u64),
    U128(u128),
}

impl Value {
    /// The literal as a number.
    pub open spec fn number(self) -> u128 {
        match self {
            Value::Bool(value) => if value {
                1
            } else {
                0
            },
            Value::U32(value) => value as u128,
            Value::U64(value) => value as u128,
            Value::U128(value) => value,
        }
    }

    /// Returns the literal as a number.
    pub fn to_number(&self) -> (number: u128)
        ensures
            number == self.number(),
            match self {
                Value::Bool(value) => number as int == (if *value {
                    1int
                } else {
                    0int
                }),
                Value::U32(value) => number as int == *value as int,
                Value::U64(value) => number as int == *value as int,
                Value::U128(value) => number as int == *value as int,
            },
    {
        match self {
            Value::Bool(value) => if *value {
                1
            } else {
                0
            },
            Value::U32(value) => *value as u128,
            Value::U64(value) => *value as u128,
            Value::U128(value) => *value,
        }
    }
}

/// An operation on one signal.
#[derive(Clone, Copy, PartialEq, Eq, Structural, Debug)]
pub enum UnOp {
    Not,
}

/// An operation on two signals.
#[derive(Clone, Copy, PartialEq, Eq, Structural, Debug)]
pub enum BinOp {
    Add,
    BitAnd,
    BitOr,
    BitXor,
    Equal,
    NotEqual,
    LessThan,
    LessThanEqual,
    GreaterThan,
    GreaterThanEqual,
}

impl BinOp {
    /// Whether the operation yields one bit, whatever the width of its operands.
    pub open spec fn is_comparison(self) -> bool {
        match self {
            BinOp::Add | BinOp::BitAnd | BinOp::BitOr | BinOp::BitXor => false,
            _ => true,
        }
    }
}

/// What a signal is made of. Other signals, and instances, are given by position.
#[allow(inconsistent_fields)]
pub enum SignalData {
    Lit { value: Value },
    Input { name: String },
    /// A register; `next` is the signal that it takes its next value from.
    Reg { next: Option<usize> },
    UnOp { source: usize, op: UnOp },
    BinOp { lhs: usize, rhs: usize, op: BinOp },
    /// The bits of `source` from `range_low` to `range_high`, both of them among these.
    Bits { source: usize, range_high: u32, range_low: u32 },
    /// `count` copies of `source`, side by side.
    Repeat { source: usize, count: u32 },
    /// `lhs` in the high bits, `rhs` in the low ones.
    Concat { lhs: usize, rhs: usize },
    /// `b` where `sel` is high, `a` where it is low.
    Mux { a: usize, b: usize, sel: usize },
    /// The output `name` of an instance's module.
    InstanceOutput { instance: usize, name: String },
}

/// A signal.
pub struct Signal {
    pub bit_width: u32,
    pub data: SignalData,
}

/// A mask for the low `bit_width` bits of a word.
pub open spec fn mask(bit_width: u32) -> u128 {
    if bit_width >= 128 {
        0xffff_ffff_ffff_ffff_ffff_ffff_ffff_ffff
    } else {
        ((1u128 << bit_width) - 1) as u128
    }
}

/// Whether `value` has no bits above the low `bit_width` ones.
pub open spec fn fits(value: u128, bit_width: u32) -> bool {
    value & mask(bit_width) == value
}

/// A module graph.
pub struct Graph {
    pub modules: Vec<Module>,
    pub signals: Vec<Signal>,
    pub instances: Vec<Instance>,
}

impl Graph {
    /// Whether `signal` is the position of a signal.
    pub open spec fn has(self, signal: usize) -> bool {
        signal < self.signals@.len()
    }

    /// The width of a signal.
    pub open spec fn width(self, signal: usize) -> u32 {
        self.signals@[signal as int].bit_width
    }

    /// What a signal is made of.
    pub open spec fn data(self, signal: usize) -> SignalData {
        self.signals@[signal as int].data
    }

    /// The signal behind the output `name` of an instance's module, if there is one.
    pub open spec fn output(self, instance: usize, name: Seq<char>) -> Option<usize> {
        if instance < self.instances@.len() {
            let module = self.instances@[instance as int].instantiated_module;
            if module < self.modules@.len() && self.modules@[module as int].outputs@.contains_key(
                name,
            ) {
                Some(self.modules@[module as int].outputs@[name])
            } else {
                None
            }
        } else {
            None
        }
    }

    /// The signal that drives the input `name` of an instance, if there is one.
    pub open spec fn driver(self, instance: usize, name: Seq<char>) -> Option<usize> {
        if instance < self.instances@.len()
            && self.instances@[instance as int].driven_inputs@.contains_key(name) {
            Some(self.instances@[instance as int].driven_inputs@[name])
        } else {
            None
        }
    }

    /// Whether a signal exists and is between 1 and 128 bits wide.
    pub open spec fn has_width(self, signal: usize) -> bool {
        self.has(signal) && 1 <= self.width(signal) <= 128
    }

    /// Whether a signal can be compiled, as far as widths are concerned: its own and those
    /// of the signals that it is converted from are between 1 and 128 bits, and the places
    /// of the copies in a repetition can be counted in 32 bits.
    pub open spec fn sized(self, signal: usize) -> bool {
        &&& self.has_width(signal)
        &&& match self.data(signal) {
            SignalData::UnOp { source, .. } => self.has_width(source),
            SignalData::BinOp { lhs, .. } => self.has_width(lhs),
            SignalData::Bits { source, .. } => self.has_width(source),
            SignalData::Repeat { source, count } => {
                &&& self.has_width(source)
                &&& (count - 1) * self.width(source) <= u32::MAX
            },
            SignalData::Concat { lhs, rhs } => self.has_width(lhs) && self.has_width(rhs),
            _ => true,
        }
    }

    /// Whether the parts that a signal refers to exist and agree with it in width. A signal
    /// that does not agree with its parts has no value.
    pub open spec fn signal_wf(self, signal: usize) -> bool {
        let width = self.width(signal);
        &&& 1 <= width <= 128
        &&& match self.data(signal) {
            SignalData::Lit { value } => fits(value.number(), width),
            SignalData::Input { .. } => true,
            SignalData::Reg { next } => match next {
                Some(next) => self.has(next) && self.width(next) == width,
                None => true,
            },
            SignalData::UnOp { source, .. } => self.has(source) && self.width(source) == width,
            SignalData::BinOp { lhs, rhs, op } => {
                &&& self.has(lhs)
                &&& self.has(rhs)
                &&& self.width(lhs) == self.width(rhs)
                &&& width == (if op.is_comparison() {
                    1
                } else {
                    self.width(lhs)
                })
            },
            SignalData::Bits { source, range_high, range_low } => {
                &&& self.has(source)
                &&& range_low <= range_high < self.width(source)
                &&& width == range_high - range_low + 1
            },
            SignalData::Repeat { source, count } => {
                &&& self.has(source)
                &&& count >= 1
                &&& width == self.width(source) * count
            },
            SignalData::Concat { lhs, rhs } => {
                &&& self.has(lhs)
                &&& self.has(rhs)
                &&& width == self.width(lhs) + self.width(rhs)
            },
            SignalData::Mux { a, b, sel } => {
                &&& self.has(a)
                &&& self.has(b)
                &&& self.has(sel)
                &&& self.width(a) == width
                &&& self.width(b) == width
                &&& self.width(sel) == 1
            },
            SignalData::InstanceOutput { instance, name } => {
                match self.output(instance, name@) {
                    Some(output) => self.has(output) && self.width(output) == width,
                    None => false,
                }
            },
        }
    }

    /// Whether the graph is well formed: every signal is between 1 and 128 bits wide,
    /// refers to parts that exist and agrees with them in width.
    pub open spec fn wf(self) -> bool {
        forall|signal: usize| self.has(signal) ==> #[trigger] self.signal_wf(signal)
    }

    /// Whether a signal is well formed.
    pub fn is_signal_wf(&self, signal: usize) -> (b: bool)
        requires
            self.has(signal),
        ensures
            b == self.signal_wf(signal),
    {
        let width = self.signals[signal].bit_width;
        if width < 1 || width > 128 {
            return false;
        }
        match &self.signals[signal].data {
            SignalData::Lit { value } => {
                let number = value.to_number();
                number & low_bits(width) == number
            },
            SignalData::Input { .. } => true,
            SignalData::Reg { next } => match next {
                Some(next) => self.is_wide(*next, width),
                None => true,
            },
            SignalData::UnOp { source, .. } => self.is_wide(*source, width),
            SignalData::BinOp { lhs, rhs, op } => {
                if *lhs >= self.signals.len() {
                    return false;
                }
                let source_width = self.signals[*lhs].bit_width;
                let target_width = match op {
                    BinOp::Add | BinOp::BitAnd | BinOp::BitOr | BinOp::BitXor => source_width,
                    _ => 1,
                };
                self.is_wide(*rhs, source_width) && width == target_width
            },
            SignalData::Bits { source, range_high, range_low } => {
                *source < self.signals.len() && *range_low <= *range_high && *range_high
                    < self.signals[*source].bit_width && width - 1 == *range_high - *range_low
            },
            SignalData::Repeat { source, count } => {
                if *source >= self.signals.len() || *count < 1 {
                    return false;
                }
                let source_width = self.signals[*source].bit_width;
                match source_width.checked_mul(*count) {
                    Some(total) => width == total,
                    None => false,
                }
            },
            SignalData::Concat { lhs, rhs } => {
                if *lhs >= self.signals.len() || *rhs >= self.signals.len() {
                    return false;
                }
                match self.signals[*lhs].bit_width.checked_add(self.signals[*rhs].bit_width) {
                    Some(total) => width == total,
                    None => false,
                }
            },
            SignalData::Mux { a, b, sel } => {
                self.is_wide(*a, width) && self.is_wide(*b, width) && self.is_wide(*sel, 1)
            },
            SignalData::InstanceOutput { instance, name } => {
                match self.find_output(*instance, name.as_str()) {
                    Some(output) => self.is_wide(output, width),
                    None => false,
                }
            },
        }
    }

    /// Whether the graph is well formed.
    pub fn is_wf(&self) -> (b: bool)
        ensures
            b == self.wf(),
    {
        let mut signal: usize = 0;
        while signal < self.signals.len()
            invariant
                signal <= self.signals@.len(),
                forall|s: usize| s < signal ==> #[trigger] self.signal_wf(s),
            decreases self.signals@.len() - signal,
        {
            if !self.is_signal_wf(signal) {
                return false;
            }
            signal += 1;
        }
        true
    }

    /// Whether `signal` exists and is `bit_width` bits wide.
    fn is_wide(&self, signal: usize, bit_width: u32) -> (b: bool)
        ensures
            b == (self.has(signal) && self.width(signal) == bit_width),
    {
        signal < self.signals.len() && self.signals[signal].bit_width == bit_width
    }

    /// Whether a signal can be compiled, as far as widths are concerned.
    pub fn is_sized(&self, signal: usize) -> (b: bool)
        ensures
            b == self.sized(signal),
    {
        if !self.is_in_range(signal) {
            return false;
        }
        match &self.signals[signal].data {
            SignalData::UnOp { source, .. } => self.is_in_range(*source),
            SignalData::BinOp { lhs, .. } => self.is_in_range(*lhs),
            SignalData::Bits { source, .. } => self.is_in_range(*source),
            SignalData::Repeat { source, count } => {
                if !self.is_in_range(*source) {
                    return false;
                }
                let source_width = self.signals[*source].bit_width;
                assert(*count == 0 ==> (*count - 1) * source_width <= 0) by (nonlinear_arith)
                    requires
                        source_width >= 0,
                ;
                *count == 0 || (*count - 1).checked_mul(source_width).is_some()
            },
            SignalData::Concat { lhs, rhs } => self.is_in_range(*lhs) && self.is_in_range(*rhs),
            _ => true,
        }
    }

    /// Whether a signal exists and is between 1 and 128 bits wide.
    fn is_in_range(&self, signal: usize) -> (b: bool)
        ensures
            b == self.has_width(signal),
    {
        signal < self.signals.len() && 1 <= self.signals[signal].bit_width
            && self.signals[signal].bit_width <= 128
    }

    /// Returns the signal behind the output `name` of an instance's module, if there is one.
    pub fn find_output(&self, instance: usize, name: &str) -> (output: Option<usize>)
        ensures
            output == self.output(instance, name@),
            output is Some <==> {
                let module = self.instances@[instance as int].instantiated_module;
                &&& instance < self.instances@.len()
                &&& module < self.modules@.len()
                &&& self.modules@[module as int].outputs@.contains_key(name@)
            },
            output is Some ==> {
                let module = self.instances@[instance as int].instantiated_module;
                output->0 == self.modules@[module as int].outputs@[name@]
            },
    {
        if instance >= self.instances.len() {
            return None;
        }
        let module = self.instances[instance].instantiated_module;
        if module >= self.modules.len() {
            return None;
        }
        self.modules[module].outputs.get(name)
    }

    /// Returns the signal that drives the input `name` of an instance, if there is one.
    pub fn find_driver(&self, instance: usize, name: &str) -> (driver: Option<usize>)
        ensures
            driver == self.driver(instance, name@),
            driver is Some <==> instance < self.instances@.len() && self.instances@[
                instance as int
            ].driven_inputs@.contains_key(name@),
            driver is Some ==> driver->0 == self.instances@[instance as int].driven_inputs@[name@],
    {
        if instance >= self.instances.len() {
            return None;
        }
        self.instances[instance].driven_inputs.get(name)
    }
}

/// A well-formed signal has widths in range, if those that it is made of are well formed.
pub proof fn well_formed_signals_are_sized(g: Graph, signal: usize)
    requires
        g.wf(),
        g.has(signal),
    ensures
        g.sized(signal),
{
    assert(g.signal_wf(signal));
    match g.data(signal) {
        SignalData::UnOp { source, .. } => {
            assert(g.signal_wf(source));
        },
        SignalData::BinOp { lhs, .. } => {
            assert(g.signal_wf(lhs));
        },
        SignalData::Bits { source, .. } => {
            assert(g.signal_wf(source));
        },
        SignalData::Repeat { source, count } => {
            assert(g.signal_wf(source));
            let width = g.width(source);
            assert((count - 1) * width <= width * count) by (nonlinear_arith)
                requires
                    width >= 0,
            ;
        },
        SignalData::Concat { lhs, rhs } => {
            assert(g.signal_wf(lhs) && g.signal_wf(rhs));
        },
        _ => {},
    }
}

/// Returns the mask for the low `bit_width` bits of a word.
pub fn low_bits(bit_width: u32) -> (word: u128)
    ensures
        word == mask(bit_width),
        bit_width < 128 ==> word as int == pow2(bit_width as nat) - 1,
        bit_width >= 128 ==> word == u128::MAX,
{
    proof {
        if bit_width < 128 {
            mask_in_numbers(bit_width);
        }
    }
    if bit_width >= 128 {
        u128::MAX
    } else {
        assert((1u128 << bit_width) >= 1) by (bit_vector)
            requires
                bit_width < 128,
        ;
        (1u128 << bit_width) - 1
    }
}

/// A signal as one place of the instance hierarchy sees it: `path` holds the instances
/// that lead there from the top, the innermost last.
pub struct Node {
    pub path: Seq<usize>,
    pub signal: usize,
}

impl Node {
    /// Another signal in the same place.
    pub open spec fn beside(self, signal: usize) -> Node {
        Node { path: self.path, signal }
    }
}

} // verus!
