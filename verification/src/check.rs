//! Tests to make before a search for registers and before a signal is compiled: whether
//! what these ask of a design holds.

use crate::bounds::{cast_temps, combine_temps, mask_temps, operation_temps, shift_temps};
use crate::compiler::{Compiler, RegNames};
use crate::graph::{BinOp, Graph, Node, SignalData};
use crate::growth::{combine_extends, lower_grows};
use crate::il::{ExprView, ValueType};
use crate::lowering::{
    gather, gather_all, gathers, lower, lower_all, lowered, lowered_within, lowers, operands,
    reg_names, search_order, RegNamesView, State,
};
use crate::name::{reg_next_name_string, reg_value_name_string};
use crate::scoped_map::ScopedMap;
use crate::stack::InstanceStack;
use vstd::prelude::*;
use vstd::string::StringExecFns;

verus! {

/// What keeps a search for registers from coming to an end.
#[derive(Clone, Copy, PartialEq, Eq, Structural, Debug)]
pub enum SearchFault {
    /// A position is not that of a signal.
    NoSignal,
    /// An input of an instance has no driver.
    UndrivenInput,
    /// A register has no next value.
    UndrivenRegister,
    /// The module of an instance does not have an output.
    NoOutput,
    /// The search goes over too many signals in a row.
    TooDeep,
}

impl SearchFault {
    /// Returns a message for the fault.
    pub fn message(&self) -> (message: String)
        ensures
            message@ == (match self {
                SearchFault::NoSignal => "Discovered a signal that does not exist"@,
                SearchFault::UndrivenInput => "Discovered undriven input(s)"@,
                SearchFault::UndrivenRegister => "Discovered undriven register(s)"@,
                SearchFault::NoOutput => "Discovered an output that does not exist"@,
                SearchFault::TooDeep => "Discovered too many signals in a row"@,
            }),
    {
        String::from_str(
            match self {
                SearchFault::NoSignal => "Discovered a signal that does not exist",
                SearchFault::UndrivenInput => "Discovered undriven input(s)",
                SearchFault::UndrivenRegister => "Discovered undriven register(s)",
                SearchFault::NoOutput => "Discovered an output that does not exist",
                SearchFault::TooDeep => "Discovered too many signals in a row",
            },
        )
    }
}

/// The first fault that a search from `node` meets, where it may go over fewer than `depth`
/// signals in a row.
pub open spec fn search_fault(
    g: Graph,
    regs: Map<Node, RegNamesView>,
    node: Node,
    depth: nat,
) -> Option<SearchFault>
    decreases depth, 0nat,
{
    if depth == 0 {
        Some(SearchFault::TooDeep)
    } else if !g.has(node.signal) {
        Some(SearchFault::NoSignal)
    } else {
        match g.data(node.signal) {
            SignalData::Reg { next } => if regs.contains_key(node) {
                None
            } else {
                match next {
                    Some(next) => search_fault(
                        g,
                        regs.insert(node, reg_names(regs.len())),
                        node.beside(next),
                        (depth - 1) as nat,
                    ),
                    None => Some(SearchFault::UndrivenRegister),
                }
            },
            _ => match search_order(g, node) {
                Some(nodes) => search_all_fault(g, regs, nodes, (depth - 1) as nat),
                None => Some(
                    if g.data(node.signal) is Input {
                        SearchFault::UndrivenInput
                    } else {
                        SearchFault::NoOutput
                    },
                ),
            },
        }
    }
}

/// The first fault that searches from `nodes` meet, one after the other.
pub open spec fn search_all_fault(
    g: Graph,
    regs: Map<Node, RegNamesView>,
    nodes: Seq<Node>,
    depth: nat,
) -> Option<SearchFault>
    decreases depth, nodes.len() + 1,
{
    if nodes.len() == 0 {
        None
    } else {
        match search_all_fault(g, regs, nodes.drop_last(), depth) {
            Some(fault) => Some(fault),
            None => search_fault(
                g,
                gather_all(g, regs, nodes.drop_last(), depth)->0,
                nodes.last(),
                depth,
            ),
        }
    }
}

/// A search ends within some depth exactly where it meets no fault.
pub proof fn searches_without_fault_end(
    g: Graph,
    regs: Map<Node, RegNamesView>,
    node: Node,
    depth: nat,
)
    ensures
        search_fault(g, regs, node, depth) is None <==> gather(g, regs, node, depth) is Some,
    decreases depth, 0nat,
{
    if depth > 0 && g.has(node.signal) {
        match g.data(node.signal) {
            SignalData::Reg { next } => {
                if !regs.contains_key(node) && next is Some {
                    searches_without_fault_end(
                        g,
                        regs.insert(node, reg_names(regs.len())),
                        node.beside(next->0),
                        (depth - 1) as nat,
                    );
                }
            },
            _ => {
                if search_order(g, node) is Some {
                    all_searches_without_fault_end(
                        g,
                        regs,
                        search_order(g, node)->0,
                        (depth - 1) as nat,
                    );
                }
            },
        }
    }
}

proof fn all_searches_without_fault_end(
    g: Graph,
    regs: Map<Node, RegNamesView>,
    nodes: Seq<Node>,
    depth: nat,
)
    ensures
        search_all_fault(g, regs, nodes, depth) is None <==> gather_all(g, regs, nodes, depth)
            is Some,
    decreases depth, nodes.len() + 1,
{
    if nodes.len() > 0 {
        let front = nodes.drop_last();
        all_searches_without_fault_end(g, regs, front, depth);
        if gather_all(g, regs, front, depth) is Some {
            searches_without_fault_end(
                g,
                gather_all(g, regs, front, depth)->0,
                nodes.last(),
                depth,
            );
        }
    }
}

/// The fault of the first searches is that of all.
proof fn first_fault(
    g: Graph,
    regs: Map<Node, RegNamesView>,
    nodes: Seq<Node>,
    depth: nat,
    k: int,
)
    requires
        0 <= k <= nodes.len(),
        search_all_fault(g, regs, nodes.take(k), depth) is Some,
    ensures
        search_all_fault(g, regs, nodes, depth) == search_all_fault(
            g,
            regs,
            nodes.take(k),
            depth,
        ),
    decreases nodes.len(),
{
    if k == nodes.len() {
        assert(nodes.take(k) =~= nodes);
    } else {
        assert(nodes.drop_last().take(k) =~= nodes.take(k));
        first_fault(g, regs, nodes.drop_last(), depth, k);
    }
}

/// The signals, seen from places, that a list stands for.
spec fn places(list: Seq<(usize, InstanceStack)>) -> Seq<Node> {
    list.map_values(|place: (usize, InstanceStack)| Node { path: place.1@, signal: place.0 })
}

/// Lists signals beside one another.
fn beside(stack: &InstanceStack, signals: Vec<usize>) -> (list: Vec<(usize, InstanceStack)>)
    ensures
        places(list@) == signals@.map_values(
            |signal: usize| Node { path: stack@, signal },
        ),
{
    let mut list: Vec<(usize, InstanceStack)> = Vec::new();
    let mut k: usize = 0;
    while k < signals.len()
        invariant
            k <= signals@.len(),
            list@.len() == k,
            forall|i: int|
                0 <= i < k ==> (#[trigger] list@[i]).0 == signals@[i] && list@[i].1@ == stack@,
        decreases signals@.len() - k,
    {
        list.push((signals[k], stack.clone()));
        k += 1;
    }
    assert(places(list@) =~= signals@.map_values(|signal: usize| Node { path: stack@, signal }));
    list
}

/// Lists the signals that `signal`, seen from `stack`, is computed from.
fn list_operands(graph: &Graph, signal: usize, stack: &InstanceStack) -> (list: Option<
    Vec<(usize, InstanceStack)>,
>)
    requires
        graph.has(signal),
    ensures
        match list {
            Some(list) => operands(*graph, Node { path: stack@, signal }) == Some(places(list@)),
            None => operands(*graph, Node { path: stack@, signal }) is None,
        },
{
    let ghost node = Node { path: stack@, signal };
    let ghost expected = operands(*graph, node);
    let list = match &graph.signals[signal].data {
        SignalData::Lit { .. } | SignalData::Reg { .. } => beside(stack, Vec::new()),
        SignalData::Input { name } => match stack.pop() {
            Some((instance, tail)) => match graph.find_driver(instance, name.as_str()) {
                Some(driver) => beside(&tail, vec![driver]),
                None => {
                    return None;
                },
            },
            None => beside(stack, Vec::new()),
        },
        SignalData::UnOp { source, .. }
        | SignalData::Bits { source, .. }
        | SignalData::Repeat { source, .. } => beside(stack, vec![*source]),
        SignalData::BinOp { lhs, rhs, .. } | SignalData::Concat { lhs, rhs } => beside(
            stack,
            vec![*lhs, *rhs],
        ),
        SignalData::Mux { a, b, sel } => beside(stack, vec![*b, *a, *sel]),
        SignalData::InstanceOutput { instance, name } => match graph.find_output(
            *instance,
            name.as_str(),
        ) {
            Some(output) => beside(&stack.push(*instance), vec![output]),
            None => {
                return None;
            },
        },
    };
    assert(places(list@) =~= expected->0);
    Some(list)
}

/// Lists the signals that a search goes on to from `signal`, seen from `stack`.
fn list_search_order(graph: &Graph, signal: usize, stack: &InstanceStack) -> (list: Option<
    Vec<(usize, InstanceStack)>,
>)
    requires
        graph.has(signal),
    ensures
        match list {
            Some(list) => search_order(*graph, Node { path: stack@, signal }) == Some(
                places(list@),
            ),
            None => search_order(*graph, Node { path: stack@, signal }) is None,
        },
{
    match &graph.signals[signal].data {
        SignalData::Mux { a, b, sel } => {
            let list = beside(stack, vec![*sel, *b, *a]);
            assert(places(list@) =~= search_order(*graph, Node { path: stack@, signal })->0);
            Some(list)
        },
        _ => list_operands(graph, signal, stack),
    }
}

/// Searches from `signal`, seen from `stack`, and adds to `names`, until a fault is met.
fn search(
    graph: &Graph,
    names: &mut ScopedMap<RegNames>,
    signal: usize,
    stack: &InstanceStack,
    limit: u32,
) -> (fault: Option<SearchFault>)
    requires
        old(names).wf(),
    ensures
        final(names).wf(),
        fault == search_fault(
            *graph,
            old(names)@,
            Node { path: stack@, signal },
            limit as nat,
        ),
        fault is None ==> gather(
            *graph,
            old(names)@,
            Node { path: stack@, signal },
            limit as nat,
        ) == Some(final(names)@),
    decreases limit,
{
    let ghost node = Node { path: stack@, signal };
    let ghost regs = names@;
    if limit == 0 {
        return Some(SearchFault::TooDeep);
    }
    if signal >= graph.signals.len() {
        return Some(SearchFault::NoSignal);
    }
    let less = limit - 1;
    if let SignalData::Reg { next } = &graph.signals[signal].data {
        if names.contains_key(stack, signal) {
            return None;
        }
        let value_name = reg_value_name_string(names.len());
        let next_name = reg_next_name_string(&value_name);
        return match next {
            Some(next) => {
                names.insert(stack.clone(), signal, RegNames { value_name, next_name });
                search(graph, names, *next, stack, less)
            },
            None => Some(SearchFault::UndrivenRegister),
        };
    }
    let list = match list_search_order(graph, signal, stack) {
        Some(list) => list,
        None => {
            return match &graph.signals[signal].data {
                SignalData::Input { .. } => Some(SearchFault::UndrivenInput),
                _ => Some(SearchFault::NoOutput),
            };
        },
    };
    let ghost nodes = places(list@);
    let mut k: usize = 0;
    while k < list.len()
        invariant
            k <= list@.len(),
            nodes == places(list@),
            names.wf(),
            search_fault(*graph, regs, node, limit as nat) == search_all_fault(
                *graph,
                regs,
                nodes,
                less as nat,
            ),
            search_all_fault(*graph, regs, nodes.take(k as int), less as nat) is None,
            gather_all(*graph, regs, nodes.take(k as int), less as nat) == Some(names@),
            less < limit,
            regs == old(names)@,
            node == (Node { path: stack@, signal }),
        decreases list@.len() - k,
    {
        assert(nodes.take(k + 1).drop_last() =~= nodes.take(k as int));
        assert(nodes.take(k + 1).last() == (Node {
            path: list@[k as int].1@,
            signal: list@[k as int].0,
        }));
        let fault = search(graph, names, list[k].0, &list[k].1, less);
        if fault.is_some() {
            proof {
                first_fault(*graph, regs, nodes, less as nat, k + 1);
            }
            return fault;
        }
        k += 1;
    }
    assert(nodes.take(k as int) =~= nodes);
    None
}

/// Copies a table of names.
fn copy_names(names: &ScopedMap<RegNames>) -> (copy: ScopedMap<RegNames>)
    requires
        names.wf(),
    ensures
        copy.wf(),
        copy@ == names@,
{
    let list = names.entries();
    let mut copy: ScopedMap<RegNames> = ScopedMap::new();
    let mut k: usize = 0;
    while k < list.len()
        invariant
            k <= list@.len(),
            copy.wf(),
            copy@.submap_of(names@),
            forall|i: int|
                0 <= i < list@.len() ==> names@.contains_pair(
                    (Node { path: (#[trigger] list@[i]).0@, signal: list@[i].1 }),
                    list@[i].2@,
                ),
            forall|i: int|
                0 <= i < k ==> copy@.contains_key(
                    Node { path: (#[trigger] list@[i]).0@, signal: list@[i].1 },
                ),
        decreases list@.len() - k,
    {
        let ghost before = copy@;
        let (path, signal, value) = list[k];
        assert(names@.contains_pair(
            Node { path: list@[k as int].0@, signal: list@[k as int].1 },
            list@[k as int].2@,
        ));
        copy.insert(path.clone(), signal, value.clone());
        assert forall|i: int| 0 <= i < k + 1 implies copy@.contains_key(
            Node { path: (#[trigger] list@[i]).0@, signal: list@[i].1 },
        ) by {
            if i < k {
                assert(before.contains_key(Node { path: list@[i].0@, signal: list@[i].1 }));
            }
        }
        k += 1;
    }
    assert forall|n: Node| #[trigger] names@.contains_key(n) implies copy@.contains_key(n) by {
        let i = choose|i: int|
            0 <= i < list@.len() && n.path == (#[trigger] list@[i]).0@ && n.signal == list@[i].1;
        assert(n == (Node { path: list@[i].0@, signal: list@[i].1 }));
    }
    assert(copy@ =~= names@);
    copy
}

/// Returns the number of temporaries that a mask takes.
fn count_mask(bit_width: u32, target_type: ValueType) -> (count: u64)
    ensures
        count == mask_temps(bit_width, target_type),
{
    if bit_width == target_type.bit_width() {
        0
    } else {
        1
    }
}

/// Returns the number of temporaries that a conversion takes.
fn count_cast(source_type: ValueType, target_type: ValueType) -> (count: u64)
    ensures
        count == cast_temps(source_type, target_type),
        count <= 2,
{
    if source_type == target_type {
        0
    } else if target_type == ValueType::Bool {
        count_mask(1, source_type) + 1
    } else {
        1
    }
}

/// Returns the number of temporaries that a shift takes.
fn count_shift(shift: u32) -> (count: u64)
    ensures
        count == shift_temps(shift),
{
    if shift == 0 {
        0
    } else {
        1
    }
}

/// Returns the number of temporaries that a signal takes, besides those of its operands.
fn count_operation(graph: &Graph, signal: usize, stack: &InstanceStack) -> (count: u64)
    requires
        graph.sized(signal),
    ensures
        count == operation_temps(*graph, Node { path: stack@, signal }),
        count <= 0x2_0000_0001,
{
    let width = graph.signals[signal].bit_width;
    let target_type = ValueType::from_bit_width(width);
    match &graph.signals[signal].data {
        SignalData::Lit { .. } | SignalData::Reg { .. } => 0,
        SignalData::Input { .. } => match stack.pop() {
            Some(_) => 0,
            None => count_mask(width, target_type),
        },
        SignalData::UnOp { source, .. } => {
            let source_width = graph.signals[*source].bit_width;
            1 + count_mask(source_width, ValueType::from_bit_width(source_width))
        },
        SignalData::BinOp { lhs, op, .. } => {
            let source_type = ValueType::from_bit_width(graph.signals[*lhs].bit_width);
            let input_type = match (op, source_type) {
                (BinOp::Add, ValueType::Bool) => ValueType::U32,
                _ => source_type,
            };
            let output_type = match op {
                BinOp::Add | BinOp::BitAnd | BinOp::BitOr | BinOp::BitXor => input_type,
                _ => ValueType::Bool,
            };
            2 * count_cast(source_type, input_type) + 1 + count_cast(output_type, target_type)
                + count_mask(width, target_type)
        },
        SignalData::Bits { source, range_low, .. } => {
            let source_type = ValueType::from_bit_width(graph.signals[*source].bit_width);
            count_shift(*range_low) + count_cast(source_type, target_type) + count_mask(
                width,
                target_type,
            )
        },
        SignalData::Repeat { source, count } => {
            let source_type = ValueType::from_bit_width(graph.signals[*source].bit_width);
            let copies: u64 = if *count == 0 {
                0
            } else {
                2 * (*count as u64 - 1)
            };
            count_cast(source_type, target_type) + copies
        },
        SignalData::Concat { lhs, rhs } => {
            let lhs_type = ValueType::from_bit_width(graph.signals[*lhs].bit_width);
            let rhs_width = graph.signals[*rhs].bit_width;
            let rhs_type = ValueType::from_bit_width(rhs_width);
            count_cast(lhs_type, target_type) + count_cast(rhs_type, target_type) + count_shift(
                rhs_width,
            ) + 1
        },
        SignalData::Mux { .. } => 1,
        SignalData::InstanceOutput { .. } => 0,
    }
}

/// Where signals can be compiled one after the other, so can the first of them, which take
/// no more temporaries.
proof fn first_compiled(g: Graph, st: State, nodes: Seq<Node>, depth: nat, k: int)
    requires
        0 <= k <= nodes.len(),
        lower_all(g, st, nodes, depth) is Some,
    ensures
        lower_all(g, st, nodes.take(k), depth) is Some,
        (lower_all(g, st, nodes.take(k), depth)->0).0.temps <= (lower_all(
            g,
            st,
            nodes,
            depth,
        )->0).0.temps,
    decreases nodes.len(),
{
    if k == nodes.len() {
        assert(nodes.take(k) =~= nodes);
    } else {
        assert(nodes.drop_last().take(k) =~= nodes.take(k));
        first_compiled(g, st, nodes.drop_last(), depth, k);
        lower_grows(g, (lower_all(g, st, nodes.drop_last(), depth)->0).0, nodes.last(), depth);
    }
}

impl<'a> Compiler<'a> {
    /// Returns the first fault that a search for registers from `signal`, seen from
    /// `instance_stack`, meets, where it may go over fewer than `limit` signals in a row.
    /// Where there is none, `gather_regs` can be called.
    pub fn search_fault(&self, signal: usize, instance_stack: &InstanceStack, limit: u32) -> (fault:
        Option<SearchFault>)
        requires
            self.wf(),
        ensures
            fault == search_fault(
                *self.graph,
                self@.regs,
                Node { path: instance_stack@, signal },
                limit as nat,
            ),
            fault is None ==> gathers(
                *self.graph,
                self@.regs,
                Node { path: instance_stack@, signal },
            ),
    {
        let mut names = copy_names(&self.reg_names);
        search(self.graph, &mut names, signal, instance_stack, limit)
    }

    /// Whether `signal`, seen from `instance_stack`, can be compiled, where no path may go
    /// over `limit` signals or more in a row. Where it can, `compile_signal` can be called.
    pub fn can_compile(&self, signal: usize, instance_stack: &InstanceStack, limit: u32) -> (can:
        bool)
        requires
            self.wf(),
        ensures
            can == ({
                let node = Node { path: instance_stack@, signal };
                let compiled = lower(*self.graph, self@, node, limit as nat);
                compiled is Some && (compiled->0).0.temps <= u32::MAX
            }),
            can ==> ({
                let node = Node { path: instance_stack@, signal };
                &&& lowers(*self.graph, self@, node)
                &&& lowered(*self.graph, self@, node).0.temps <= u32::MAX
            }),
    {
        let mut done: ScopedMap<bool> = ScopedMap::new();
        let ghost node = Node { path: instance_stack@, signal };
        assert(self@.exprs.dom() =~= self@.exprs.dom().union(done@.dom()));
        let can = self.count_temps(
            &mut done,
            self.temp_count(),
            signal,
            instance_stack,
            limit,
            Ghost(self@),
        ).is_some();
        proof {
            if can {
                lowered_within(*self.graph, self@, node, limit as nat);
            }
        }
        can
    }

    /// Returns the number of temporaries once `signal` is compiled, after those that `done`
    /// holds; `temps` is their number before.
    fn count_temps(
        &self,
        done: &mut ScopedMap<bool>,
        temps: u32,
        signal: usize,
        stack: &InstanceStack,
        limit: u32,
        Ghost(st): Ghost<State>,
    ) -> (count: Option<u32>)
        requires
            self.wf(),
            old(done).wf(),
            st.regs == self@.regs,
            st.temps == temps,
            st.exprs.dom() == self@.exprs.dom().union(old(done)@.dom()),
        ensures
            final(done).wf(),
            ({
                let compiled = lower(
                    *self.graph,
                    st,
                    Node { path: stack@, signal },
                    limit as nat,
                );
                match count {
                    Some(count) => {
                        &&& compiled is Some
                        &&& (compiled->0).0.temps == count
                        &&& (compiled->0).0.exprs.dom() == self@.exprs.dom().union(
                            final(done)@.dom(),
                        )
                    },
                    None => compiled is None || (compiled->0).0.temps > u32::MAX,
                }
            }),
        decreases limit,
    {
        let graph = self.graph;
        let ghost node = Node { path: stack@, signal };
        if limit == 0 || signal >= graph.signals.len() {
            return None;
        }
        if self.has_compiled(signal, stack) || done.contains_key(stack, signal) {
            assert(st.exprs.dom().contains(node));
            return Some(temps);
        }
        assert(!st.exprs.dom().contains(node));
        if !graph.is_sized(signal) {
            return None;
        }
        if let SignalData::Reg { .. } = &graph.signals[signal].data {
            if !self.reg_names.contains_key(stack, signal) {
                return None;
            }
        }
        let list = match list_operands(graph, signal, stack) {
            Some(list) => list,
            None => {
                return None;
            },
        };
        let ghost nodes = places(list@);
        let less = limit - 1;
        let ghost mut now = st;
        let ghost mut exprs: Seq<ExprView> = seq![];
        let mut count = temps;
        let mut k: usize = 0;
        while k < list.len()
            invariant
                self.wf(),
                graph == self.graph,
                done.wf(),
                k <= list@.len(),
                nodes == places(list@),
                lower_all(*graph, st, nodes.take(k as int), less as nat) == Some((now, exprs)),
                now.regs == self@.regs,
                now.temps == count,
                now.exprs.dom() == self@.exprs.dom().union(done@.dom()),
                less < limit,
                graph.has(node.signal),
                graph.sized(node.signal),
                !st.exprs.contains_key(node),
                graph.data(node.signal) is Reg ==> st.regs.contains_key(node),
                operands(*graph, node) == Some(nodes),
                node == (Node { path: stack@, signal }),
                less == limit - 1,
            decreases list@.len() - k,
        {
            proof {
                let last = Node { path: list@[k as int].1@, signal: list@[k as int].0 };
                assert(nodes.take(k + 1).drop_last() =~= nodes.take(k as int));
                assert(nodes.take(k + 1).last() == last);
                if lower_all(*graph, st, nodes, less as nat) is Some {
                    first_compiled(*graph, st, nodes, less as nat, k + 1);
                    let (after, all) = lower_all(*graph, st, nodes, less as nat)->0;
                    combine_extends(*graph, node, after, all);
                }
                if lower(*graph, now, last, less as nat) is Some {
                    lower_grows(*graph, now, last, less as nat);
                }
            }
            match self.count_temps(done, count, list[k].0, &list[k].1, less, Ghost(now)) {
                Some(more) => {
                    count = more;
                    proof {
                        let (after, all) = lower_all(
                            *graph,
                            st,
                            nodes.take(k + 1),
                            less as nat,
                        )->0;
                        now = after;
                        exprs = all;
                    }
                },
                None => {
                    return None;
                },
            }
            k += 1;
        }
        assert(nodes.take(k as int) =~= nodes);
        proof {
            combine_temps(*graph, node, now, exprs);
            combine_extends(*graph, node, now, exprs);
        }
        let total = count as u64 + count_operation(graph, signal, stack);
        if total > u32::MAX as u64 {
            return None;
        }
        let ghost before = done@;
        done.insert(stack.clone(), signal, true);
        assert(self@.exprs.dom().union(before.dom()).insert(node) =~= self@.exprs.dom().union(
            done@.dom(),
        ));
        Some(total as u32)
    }
}

} // verus!
