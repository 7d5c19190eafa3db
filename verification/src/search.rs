//! What a search for registers finds, and what can be compiled after it.

use crate::graph::{well_formed_signals_are_sized, Graph, Node, SignalData};
use crate::growth::lower_all_grows;
use crate::lowering::{
    gather, gather_all, gather_depth, gathered, gathered_within, gathers, lower, lower_all, lowers,
    operands, reg_names, search_order, RegNamesView, State,
};
use crate::name::reg_names_differ;
use vstd::prelude::*;

verus! {

/// Whether `node` can be computed from stored values: paths from it to signals that are
/// computed from none go over at most `depth` signals, each input on the way has a driver,
/// and each register at the end is among `regs`.
pub open spec fn ready(g: Graph, regs: Set<Node>, node: Node, depth: nat) -> bool
    decreases depth,
{
    &&& depth > 0
    &&& g.has(node.signal)
    &&& g.data(node.signal) is Reg ==> regs.contains(node)
    &&& match operands(g, node) {
        Some(nodes) => forall|i: int|
            0 <= i < nodes.len() ==> ready(g, regs, #[trigger] nodes[i], (depth - 1) as nat),
        None => false,
    }
}

/// Whether `node` is a register whose next value can be computed from stored values, the
/// registers among which are `regs`.
pub open spec fn settled(g: Graph, regs: Set<Node>, node: Node) -> bool {
    &&& g.has(node.signal)
    &&& match g.data(node.signal) {
        SignalData::Reg { next } => match next {
            Some(next) => exists|depth: nat| #[trigger] ready(g, regs, node.beside(next), depth),
            None => false,
        },
        _ => false,
    }
}

/// With more registers, and within more depth, no less can be computed.
pub proof fn ready_more(
    g: Graph,
    regs: Set<Node>,
    more_regs: Set<Node>,
    node: Node,
    depth: nat,
    more: nat,
)
    requires
        ready(g, regs, node, depth),
        regs.subset_of(more_regs),
        depth <= more,
    ensures
        ready(g, more_regs, node, more),
    decreases depth,
{
    let nodes = operands(g, node)->0;
    assert forall|i: int| 0 <= i < nodes.len() implies ready(
        g,
        more_regs,
        #[trigger] nodes[i],
        (more - 1) as nat,
    ) by {
        ready_more(g, regs, more_regs, nodes[i], (depth - 1) as nat, (more - 1) as nat);
    }
}

/// With more registers, no less is settled.
pub proof fn settled_more(g: Graph, regs: Set<Node>, more_regs: Set<Node>, node: Node)
    requires
        settled(g, regs, node),
        regs.subset_of(more_regs),
    ensures
        settled(g, more_regs, node),
{
    if let SignalData::Reg { next } = g.data(node.signal) {
        let next = node.beside(next->0);
        let depth = choose|depth: nat| #[trigger] ready(g, regs, next, depth);
        ready_more(g, regs, more_regs, next, depth, depth);
    }
}

/// A search takes no name away and changes none. What it adds to a finite number of
/// registers is finite.
pub proof fn gather_keeps(g: Graph, regs: Map<Node, RegNamesView>, node: Node, depth: nat)
    requires
        gather(g, regs, node, depth) is Some,
    ensures
        regs.submap_of(gather(g, regs, node, depth)->0),
        regs.dom().finite() ==> (gather(g, regs, node, depth)->0).dom().finite(),
    decreases depth, 0nat,
{
    let less = (depth - 1) as nat;
    match g.data(node.signal) {
        SignalData::Reg { next } => {
            if !regs.contains_key(node) {
                let named = regs.insert(node, reg_names(regs.len()));
                gather_keeps(g, named, node.beside(next->0), less);
                vstd::map_lib::lemma_submap_of_trans(
                    regs,
                    named,
                    gather(g, regs, node, depth)->0,
                );
            }
        },
        _ => {
            gather_all_keeps(g, regs, search_order(g, node)->0, less);
        },
    }
}

proof fn gather_all_keeps(
    g: Graph,
    regs: Map<Node, RegNamesView>,
    nodes: Seq<Node>,
    depth: nat,
)
    requires
        gather_all(g, regs, nodes, depth) is Some,
    ensures
        regs.submap_of(gather_all(g, regs, nodes, depth)->0),
        regs.dom().finite() ==> (gather_all(g, regs, nodes, depth)->0).dom().finite(),
    decreases depth, nodes.len() + 1,
{
    if nodes.len() > 0 {
        let named = gather_all(g, regs, nodes.drop_last(), depth)->0;
        gather_all_keeps(g, regs, nodes.drop_last(), depth);
        gather_keeps(g, named, nodes.last(), depth);
        vstd::map_lib::lemma_submap_of_trans(
            regs,
            named,
            gather_all(g, regs, nodes, depth)->0,
        );
    }
}

/// A signal that was searched from can be computed from the registers that were found, and
/// so can the next value of each register that the search found.
proof fn gather_settles(g: Graph, regs: Map<Node, RegNamesView>, node: Node, depth: nat)
    requires
        gather(g, regs, node, depth) is Some,
    ensures
        ({
            let found = gather(g, regs, node, depth)->0;
            &&& ready(g, found.dom(), node, depth)
            &&& forall|n: Node|
                found.contains_key(n) && !regs.contains_key(n) ==> #[trigger] settled(
                    g,
                    found.dom(),
                    n,
                )
        }),
    decreases depth, 0nat,
{
    let found = gather(g, regs, node, depth)->0;
    let less = (depth - 1) as nat;
    gather_keeps(g, regs, node, depth);
    match g.data(node.signal) {
        SignalData::Reg { next } => {
            if !regs.contains_key(node) {
                let named = regs.insert(node, reg_names(regs.len()));
                let behind = node.beside(next->0);
                gather_keeps(g, named, behind, less);
                assert(named.dom().contains(node));
                gather_settles(g, named, behind, less);
                assert(ready(g, found.dom(), behind, less));
                assert forall|n: Node|
                    found.contains_key(n) && !regs.contains_key(n) implies #[trigger] settled(
                    g,
                    found.dom(),
                    n,
                ) by {
                    if n == node {
                        assert(settled(g, found.dom(), node));
                    } else {
                        assert(!named.contains_key(n));
                    }
                }
            } else {
                assert(regs.dom().contains(node));
            }
        },
        _ => {
            let order = search_order(g, node)->0;
            gather_all_settles(g, regs, order, less);
            let nodes = operands(g, node)->0;
            assert forall|i: int| 0 <= i < nodes.len() implies ready(
                g,
                found.dom(),
                #[trigger] nodes[i],
                less,
            ) by {
                if g.data(node.signal) is Mux {
                    let j = if i == 0 {
                        1
                    } else if i == 1 {
                        2
                    } else {
                        0int
                    };
                    assert(order[j] == nodes[i]);
                } else {
                    assert(order[i] == nodes[i]);
                }
            }
        },
    }
}

proof fn gather_all_settles(
    g: Graph,
    regs: Map<Node, RegNamesView>,
    nodes: Seq<Node>,
    depth: nat,
)
    requires
        gather_all(g, regs, nodes, depth) is Some,
    ensures
        ({
            let found = gather_all(g, regs, nodes, depth)->0;
            &&& forall|i: int|
                0 <= i < nodes.len() ==> ready(g, found.dom(), #[trigger] nodes[i], depth)
            &&& forall|n: Node|
                found.contains_key(n) && !regs.contains_key(n) ==> #[trigger] settled(
                    g,
                    found.dom(),
                    n,
                )
        }),
    decreases depth, nodes.len() + 1,
{
    if nodes.len() > 0 {
        let front = nodes.drop_last();
        let named = gather_all(g, regs, front, depth)->0;
        let found = gather_all(g, regs, nodes, depth)->0;
        gather_all_settles(g, regs, front, depth);
        gather_settles(g, named, nodes.last(), depth);
        gather_keeps(g, named, nodes.last(), depth);
        assert(named.dom().subset_of(found.dom()));
        assert forall|i: int| 0 <= i < nodes.len() implies ready(
            g,
            found.dom(),
            #[trigger] nodes[i],
            depth,
        ) by {
            if i < front.len() {
                assert(front[i] == nodes[i]);
                ready_more(g, named.dom(), found.dom(), nodes[i], depth, depth);
            }
        }
        assert forall|n: Node|
            found.contains_key(n) && !regs.contains_key(n) implies #[trigger] settled(
            g,
            found.dom(),
            n,
        ) by {
            if named.contains_key(n) {
                settled_more(g, named.dom(), found.dom(), n);
            }
        }
    }
}

/// Whether `node` can be compiled: it can be computed from stored values, paths going over
/// at most `depth` signals, and all widths on the way are in range.
pub open spec fn compiles(g: Graph, regs: Set<Node>, node: Node, depth: nat) -> bool
    decreases depth,
{
    &&& depth > 0
    &&& g.sized(node.signal)
    &&& g.data(node.signal) is Reg ==> regs.contains(node)
    &&& match operands(g, node) {
        Some(nodes) => forall|i: int|
            0 <= i < nodes.len() ==> compiles(g, regs, #[trigger] nodes[i], (depth - 1) as nat),
        None => false,
    }
}

/// With more registers, and within more depth, no less can be compiled.
pub proof fn compiles_more(
    g: Graph,
    regs: Set<Node>,
    more_regs: Set<Node>,
    node: Node,
    depth: nat,
    more: nat,
)
    requires
        compiles(g, regs, node, depth),
        regs.subset_of(more_regs),
        depth <= more,
    ensures
        compiles(g, more_regs, node, more),
    decreases depth,
{
    let nodes = operands(g, node)->0;
    assert forall|i: int| 0 <= i < nodes.len() implies compiles(
        g,
        more_regs,
        #[trigger] nodes[i],
        (more - 1) as nat,
    ) by {
        compiles_more(g, regs, more_regs, nodes[i], (depth - 1) as nat, (more - 1) as nat);
    }
}

/// What can be compiled can be computed from stored values.
pub proof fn compiles_only_when_ready(g: Graph, regs: Set<Node>, node: Node, depth: nat)
    requires
        compiles(g, regs, node, depth),
    ensures
        ready(g, regs, node, depth),
    decreases depth,
{
    let nodes = operands(g, node)->0;
    assert forall|i: int| 0 <= i < nodes.len() implies ready(
        g,
        regs,
        #[trigger] nodes[i],
        (depth - 1) as nat,
    ) by {
        compiles_only_when_ready(g, regs, nodes[i], (depth - 1) as nat);
    }
}

/// Whether `to` is an operand of `from`.
pub open spec fn draws(g: Graph, from: Node, to: Node) -> bool {
    g.has(from.signal) && operands(g, from) is Some && operands(g, from)->0.contains(to)
}

/// Whether `from` is computed from `to` over `steps` signals, none of which is a register
/// but perhaps `to`.
pub open spec fn computed_from(g: Graph, from: Node, to: Node, steps: nat) -> bool
    decreases steps,
{
    if steps == 0 {
        from == to
    } else {
        exists|via: Node| #[trigger]
            draws(g, from, via) && computed_from(g, via, to, (steps - 1) as nat)
    }
}

/// Whether the widths of all signals that `node` is computed from, and its own, are in range.
pub open spec fn all_sized(g: Graph, node: Node) -> bool {
    forall|n: Node, steps: nat| #[trigger] computed_from(g, node, n, steps) ==> g.sized(n.signal)
}

/// What can be computed from stored values can be compiled, where all widths are in range.
proof fn ready_compiles(g: Graph, regs: Set<Node>, node: Node, depth: nat)
    requires
        ready(g, regs, node, depth),
        all_sized(g, node),
    ensures
        compiles(g, regs, node, depth),
    decreases depth,
{
    assert(computed_from(g, node, node, 0));
    let nodes = operands(g, node)->0;
    assert forall|i: int| 0 <= i < nodes.len() implies compiles(
        g,
        regs,
        #[trigger] nodes[i],
        (depth - 1) as nat,
    ) by {
        assert(draws(g, node, nodes[i]));
        assert forall|n: Node, steps: nat| #[trigger]
            computed_from(g, nodes[i], n, steps) implies g.sized(n.signal) by {
            assert(computed_from(g, node, n, steps + 1));
        }
        ready_compiles(g, regs, nodes[i], (depth - 1) as nat);
    }
}

/// In a well-formed graph, what can be computed from stored values can be compiled.
proof fn ready_compiles_in_well_formed_graphs(g: Graph, regs: Set<Node>, node: Node, depth: nat)
    requires
        g.wf(),
        ready(g, regs, node, depth),
    ensures
        compiles(g, regs, node, depth),
    decreases depth,
{
    well_formed_signals_are_sized(g, node.signal);
    let nodes = operands(g, node)->0;
    assert forall|i: int| 0 <= i < nodes.len() implies compiles(
        g,
        regs,
        #[trigger] nodes[i],
        (depth - 1) as nat,
    ) by {
        ready_compiles_in_well_formed_graphs(g, regs, nodes[i], (depth - 1) as nat);
    }
}

/// A signal that can be computed from registers with names can be compiled, where all
/// widths are in range.
pub proof fn ready_signals_can_be_compiled(g: Graph, st: State, node: Node, depth: nat)
    requires
        compiles(g, st.regs.dom(), node, depth),
    ensures
        lower(g, st, node, depth) is Some,
        lowers(g, st, node),
    decreases depth, 0nat,
{
    if !st.exprs.contains_key(node) {
        let nodes = operands(g, node)->0;
        lower_all_compiles(g, st, nodes, (depth - 1) as nat);
    }
}

proof fn lower_all_compiles(g: Graph, st: State, nodes: Seq<Node>, depth: nat)
    requires
        forall|i: int|
            0 <= i < nodes.len() ==> compiles(g, st.regs.dom(), #[trigger] nodes[i], depth),
    ensures
        lower_all(g, st, nodes, depth) is Some,
    decreases depth, nodes.len() + 1,
{
    if nodes.len() > 0 {
        let front = nodes.drop_last();
        assert forall|i: int| 0 <= i < front.len() implies compiles(
            g,
            st.regs.dom(),
            #[trigger] front[i],
            depth,
        ) by {
            assert(front[i] == nodes[i]);
        }
        lower_all_compiles(g, st, front, depth);
        lower_all_grows(g, st, front, depth);
        let st1 = (lower_all(g, st, front, depth)->0).0;
        assert(compiles(g, st.regs.dom(), nodes[nodes.len() - 1], depth));
        ready_signals_can_be_compiled(g, st1, nodes.last(), depth);
    }
}

/// After a search from a signal, that signal can be compiled, where the widths of what it is
/// computed from are in range. The same holds of the next value of each register that the
/// search gave a name to. This stays so when more registers get names.
pub proof fn searched_signals_can_be_compiled(
    g: Graph,
    regs: Map<Node, RegNamesView>,
    node: Node,
    st: State,
)
    requires
        gathers(g, regs, node),
        gathered(g, regs, node).dom().subset_of(st.regs.dom()),
    ensures
        all_sized(g, node) ==> lowers(g, st, node),
        forall|n: Node|
            #![trigger gathered(g, regs, node).contains_key(n)]
            gathered(g, regs, node).contains_key(n) && !regs.contains_key(n) ==> {
                &&& g.has(n.signal)
                &&& g.data(n.signal) matches SignalData::Reg { next: Some(next) }
                &&& all_sized(g, n.beside(next)) ==> lowers(g, st, n.beside(next))
            },
{
    let depth = choose|depth: nat| (#[trigger] gather(g, regs, node, depth)) is Some;
    let found = gathered(g, regs, node);
    gather_settles(g, regs, node, depth);
    ready_more(g, found.dom(), st.regs.dom(), node, depth, depth);
    if all_sized(g, node) {
        ready_compiles(g, st.regs.dom(), node, depth);
        ready_signals_can_be_compiled(g, st, node, depth);
    }
    assert forall|n: Node|
        #![trigger gathered(g, regs, node).contains_key(n)]
        gathered(g, regs, node).contains_key(n) && !regs.contains_key(n) implies {
        &&& g.has(n.signal)
        &&& g.data(n.signal) matches SignalData::Reg { next: Some(next) }
        &&& all_sized(g, n.beside(next)) ==> lowers(g, st, n.beside(next))
    } by {
        assert(settled(g, found.dom(), n));
        settled_more(g, found.dom(), st.regs.dom(), n);
        if let SignalData::Reg { next } = g.data(n.signal) {
            let behind = n.beside(next->0);
            let d = choose|d: nat| #[trigger] ready(g, st.regs.dom(), behind, d);
            if all_sized(g, behind) {
                ready_compiles(g, st.regs.dom(), behind, d);
                ready_signals_can_be_compiled(g, st, behind, d);
            }
        }
    }
}

/// After a search from a signal of a well-formed graph, that signal can be compiled, and so
/// can the next value of each register that the search gave a name to. This stays so when
/// more registers get names.
pub proof fn searched_signals_of_well_formed_graphs_can_be_compiled(
    g: Graph,
    regs: Map<Node, RegNamesView>,
    node: Node,
    st: State,
)
    requires
        g.wf(),
        gathers(g, regs, node),
        gathered(g, regs, node).dom().subset_of(st.regs.dom()),
    ensures
        lowers(g, st, node),
        forall|n: Node|
            #![trigger gathered(g, regs, node).contains_key(n)]
            gathered(g, regs, node).contains_key(n) && !regs.contains_key(n) ==> {
                &&& g.has(n.signal)
                &&& g.data(n.signal) matches SignalData::Reg { next: Some(next) }
                &&& lowers(g, st, n.beside(next))
            },
{
    let depth = choose|depth: nat| (#[trigger] gather(g, regs, node, depth)) is Some;
    let found = gathered(g, regs, node);
    gather_settles(g, regs, node, depth);
    ready_more(g, found.dom(), st.regs.dom(), node, depth, depth);
    ready_compiles_in_well_formed_graphs(g, st.regs.dom(), node, depth);
    ready_signals_can_be_compiled(g, st, node, depth);
    assert forall|n: Node|
        #![trigger gathered(g, regs, node).contains_key(n)]
        gathered(g, regs, node).contains_key(n) && !regs.contains_key(n) implies {
        &&& g.has(n.signal)
        &&& g.data(n.signal) matches SignalData::Reg { next: Some(next) }
        &&& lowers(g, st, n.beside(next))
    } by {
        assert(settled(g, found.dom(), n));
        settled_more(g, found.dom(), st.regs.dom(), n);
        if let SignalData::Reg { next } = g.data(n.signal) {
            let behind = n.beside(next->0);
            let d = choose|d: nat| #[trigger] ready(g, st.regs.dom(), behind, d);
            ready_compiles_in_well_formed_graphs(g, st.regs.dom(), behind, d);
            ready_signals_can_be_compiled(g, st, behind, d);
        }
    }
}

/// Searching from a signal once more finds nothing new, whatever was found in between.
pub proof fn searching_again_adds_nothing(
    g: Graph,
    regs: Map<Node, RegNamesView>,
    node: Node,
    later: Map<Node, RegNamesView>,
)
    requires
        gathers(g, regs, node),
        gathered(g, regs, node).dom().subset_of(later.dom()),
    ensures
        gathers(g, later, node),
        gathered(g, later, node) == later,
{
    let depth = choose|depth: nat| (#[trigger] gather(g, regs, node, depth)) is Some;
    gather_settles(g, regs, node, depth);
    ready_more(g, gathered(g, regs, node).dom(), later.dom(), node, depth, depth);
    ready_adds_nothing(g, later, node, depth);
    gathered_within(g, later, node, depth);
}

/// A search from a signal that can be computed from registers with names finds no other.
proof fn ready_adds_nothing(g: Graph, regs: Map<Node, RegNamesView>, node: Node, depth: nat)
    requires
        ready(g, regs.dom(), node, depth),
    ensures
        gather(g, regs, node, depth) == Some(regs),
    decreases depth, 0nat,
{
    if !(g.data(node.signal) is Reg) {
        let order = search_order(g, node)->0;
        let nodes = operands(g, node)->0;
        let less = (depth - 1) as nat;
        assert forall|i: int| 0 <= i < order.len() implies ready(
            g,
            regs.dom(),
            #[trigger] order[i],
            less,
        ) by {
            if g.data(node.signal) is Mux {
                assert(order[0] == nodes[2] && order[1] == nodes[0] && order[2] == nodes[1]);
            } else {
                assert(nodes[i] == order[i]);
            }
        }
        all_ready_add_nothing(g, regs, order, less);
    }
}

proof fn all_ready_add_nothing(
    g: Graph,
    regs: Map<Node, RegNamesView>,
    nodes: Seq<Node>,
    depth: nat,
)
    requires
        forall|i: int| 0 <= i < nodes.len() ==> ready(g, regs.dom(), #[trigger] nodes[i], depth),
    ensures
        gather_all(g, regs, nodes, depth) == Some(regs),
    decreases depth, nodes.len() + 1,
{
    if nodes.len() > 0 {
        let front = nodes.drop_last();
        assert forall|i: int| 0 <= i < front.len() implies ready(
            g,
            regs.dom(),
            #[trigger] front[i],
            depth,
        ) by {
            assert(front[i] == nodes[i]);
        }
        all_ready_add_nothing(g, regs, front, depth);
        ready_adds_nothing(g, regs, nodes.last(), depth);
    }
}

/// After a search nothing is left to find in any part of the signal: neither in either side
/// of an operation or a concatenation, nor in any input of a multiplexer, nor on the other
/// side of the boundary of an instance. A part that is a register has a name, and so has the
/// signal itself, if it is one. Behind a register that the search gave a name to, nothing is
/// left to find either.
pub proof fn searches_leave_nothing_in_the_parts(
    g: Graph,
    regs: Map<Node, RegNamesView>,
    node: Node,
    part: Node,
)
    requires
        gathers(g, regs, node),
        node.signal < g.signals@.len(),
        match g.signals@[node.signal as int].data {
            SignalData::Lit { .. } => false,
            SignalData::Input { name } => {
                &&& node.path.len() > 0
                &&& g.instances@[node.path.last() as int].driven_inputs@.contains_pair(
                    name@,
                    part.signal,
                )
                &&& part.path == node.path.drop_last()
            },
            SignalData::Reg { next } => {
                &&& !regs.contains_key(node)
                &&& next == Some(part.signal)
                &&& part.path == node.path
            },
            SignalData::UnOp { source, .. }
            | SignalData::Bits { source, .. }
            | SignalData::Repeat { source, .. } => part.signal == source && part.path
                == node.path,
            SignalData::BinOp { lhs, rhs, .. } | SignalData::Concat { lhs, rhs } => (part.signal
                == lhs || part.signal == rhs) && part.path == node.path,
            SignalData::Mux { a, b, sel } => (part.signal == a || part.signal == b || part.signal
                == sel) && part.path == node.path,
            SignalData::InstanceOutput { instance, name } => {
                let module = g.instances@[instance as int].instantiated_module;
                &&& g.modules@[module as int].outputs@.contains_pair(name@, part.signal)
                &&& part.path == node.path.push(instance)
            },
        },
    ensures
        part.signal < g.signals@.len(),
        gathers(g, gathered(g, regs, node), part),
        gathered(g, gathered(g, regs, node), part) == gathered(g, regs, node),
        g.signals@[part.signal as int].data is Reg ==> gathered(g, regs, node).contains_key(part),
        g.signals@[node.signal as int].data is Reg ==> gathered(g, regs, node).contains_key(node),
{
    let depth = choose|depth: nat| (#[trigger] gather(g, regs, node, depth)) is Some;
    let found = gathered(g, regs, node);
    gather_settles(g, regs, node, depth);
    if let SignalData::Reg { next } = g.data(node.signal) {
        assert(settled(g, found.dom(), node));
        let d = choose|d: nat| #[trigger] ready(g, found.dom(), node.beside(next->0), d);
        ready_adds_nothing(g, found, part, d);
        gathered_within(g, found, part, d);
    } else {
        let nodes = operands(g, node)->0;
        let i = if g.data(node.signal) is Mux {
            if part == nodes[0] {
                0
            } else if part == nodes[1] {
                1
            } else {
                2int
            }
        } else if part == nodes[0] {
            0
        } else {
            1int
        };
        assert(part == nodes[i]);
        assert(ready(g, found.dom(), nodes[i], (depth - 1) as nat));
        ready_adds_nothing(g, found, part, (depth - 1) as nat);
        gathered_within(g, found, part, (depth - 1) as nat);
    }
}

/// A search comes to an end where the registers in question are finite in number: those
/// that the signal is computed from, and those that the next values of the registers
/// without a name are computed from.
pub proof fn searches_end(
    g: Graph,
    regs: Map<Node, RegNamesView>,
    candidates: Set<Node>,
    node: Node,
    depth: nat,
)
    requires
        candidates.finite(),
        ready(g, candidates, node, depth),
        forall|n: Node|
            candidates.contains(n) && !regs.contains_key(n) ==> #[trigger] settled(
                g,
                candidates,
                n,
            ),
    ensures
        gathers(g, regs, node),
{
    let end = search_end(g, regs, candidates, node, depth);
    assert(gather(g, regs, node, end) is Some);
}

proof fn search_end(
    g: Graph,
    regs: Map<Node, RegNamesView>,
    candidates: Set<Node>,
    node: Node,
    depth: nat,
) -> (end: nat)
    requires
        candidates.finite(),
        ready(g, candidates, node, depth),
        forall|n: Node|
            candidates.contains(n) && !regs.contains_key(n) ==> #[trigger] settled(
                g,
                candidates,
                n,
            ),
    ensures
        gather(g, regs, node, end) is Some,
    decreases candidates.difference(regs.dom()).len(), depth, 0nat,
{
    match g.data(node.signal) {
        SignalData::Reg { next } => {
            if regs.contains_key(node) {
                1
            } else {
                assert(settled(g, candidates, node));
                let behind = node.beside(next->0);
                let named = regs.insert(node, reg_names(regs.len()));
                let d = choose|d: nat| #[trigger] ready(g, candidates, behind, d);
                assert(candidates.difference(named.dom()) =~= candidates.difference(
                    regs.dom(),
                ).remove(node));
                let end = search_end(g, named, candidates, behind, d);
                end + 1
            }
        },
        _ => {
            let order = search_order(g, node)->0;
            let nodes = operands(g, node)->0;
            assert forall|i: int| 0 <= i < order.len() implies ready(
                g,
                candidates,
                #[trigger] order[i],
                (depth - 1) as nat,
            ) by {
                if g.data(node.signal) is Mux {
                    let j = if i == 0 {
                        2
                    } else if i == 1 {
                        0
                    } else {
                        1int
                    };
                    assert(nodes[j] == order[i]);
                } else {
                    assert(nodes[i] == order[i]);
                }
            }
            let end = search_all_end(g, regs, candidates, order, (depth - 1) as nat);
            end + 1
        },
    }
}

proof fn search_all_end(
    g: Graph,
    regs: Map<Node, RegNamesView>,
    candidates: Set<Node>,
    nodes: Seq<Node>,
    depth: nat,
) -> (end: nat)
    requires
        candidates.finite(),
        forall|i: int| 0 <= i < nodes.len() ==> ready(g, candidates, #[trigger] nodes[i], depth),
        forall|n: Node|
            candidates.contains(n) && !regs.contains_key(n) ==> #[trigger] settled(
                g,
                candidates,
                n,
            ),
    ensures
        gather_all(g, regs, nodes, end) is Some,
    decreases candidates.difference(regs.dom()).len(), depth, nodes.len() + 1,
{
    if nodes.len() == 0 {
        0
    } else {
        let front = nodes.drop_last();
        assert forall|i: int| 0 <= i < front.len() implies ready(
            g,
            candidates,
            #[trigger] front[i],
            depth,
        ) by {
            assert(front[i] == nodes[i]);
        }
        let end1 = search_all_end(g, regs, candidates, front, depth);
        let named = gather_all(g, regs, front, end1)->0;
        gather_all_keeps(g, regs, front, end1);
        assert(candidates.difference(named.dom()).subset_of(candidates.difference(regs.dom())));
        vstd::set_lib::lemma_len_subset(
            candidates.difference(named.dom()),
            candidates.difference(regs.dom()),
        );
        assert(ready(g, candidates, nodes[nodes.len() - 1], depth));
        let end2 = search_end(g, named, candidates, nodes.last(), depth);
        let end = if end1 <= end2 {
            end2
        } else {
            end1
        };
        crate::lowering::gather_all_depth(g, regs, front, end1, end);
        gather_depth(g, named, nodes.last(), end2, end);
        end
    }
}

/// Whether the registers have the names that go with the numbers from 0 up, no two of
/// them the same.
pub open spec fn well_named(regs: Map<Node, RegNamesView>) -> bool {
    &&& regs.dom().finite()
    &&& forall|n: Node| #[trigger]
        regs.contains_key(n) ==> exists|i: nat| i < regs.len() && regs[n] == #[trigger] reg_names(i)
    &&& forall|n: Node, m: Node|
        #![trigger regs.contains_key(n), regs.contains_key(m)]
        regs.contains_key(n) && regs.contains_key(m) && n != m ==> regs[n] != regs[m]
}

/// The names of registers are all different: those of their current values, those of their
/// next values, and the former from the latter.
pub proof fn register_names_are_distinct(regs: Map<Node, RegNamesView>, n: Node, m: Node)
    requires
        well_named(regs),
        regs.contains_key(n),
        regs.contains_key(m),
    ensures
        n != m ==> regs[n].value_name != regs[m].value_name,
        n != m ==> regs[n].next_name != regs[m].next_name,
        regs[n].value_name != regs[m].next_name,
{
    let i = choose|i: nat| i < regs.len() && regs[n] == #[trigger] reg_names(i);
    let j = choose|j: nat| j < regs.len() && regs[m] == #[trigger] reg_names(j);
    reg_names_differ(i, j);
}

/// A search gives each register that it finds a name that no other register has.
pub proof fn searches_name_apart(g: Graph, regs: Map<Node, RegNamesView>, node: Node)
    requires
        well_named(regs),
        gathers(g, regs, node),
    ensures
        well_named(gathered(g, regs, node)),
        regs.submap_of(gathered(g, regs, node)),
{
    let depth = choose|depth: nat| (#[trigger] gather(g, regs, node, depth)) is Some;
    gather_names(g, regs, node, depth);
    gather_keeps(g, regs, node, depth);
}

/// Where there are no registers, no two share a name.
pub proof fn no_registers_are_well_named()
    ensures
        well_named(State::empty().regs),
{
}

proof fn gather_names(g: Graph, regs: Map<Node, RegNamesView>, node: Node, depth: nat)
    requires
        well_named(regs),
        gather(g, regs, node, depth) is Some,
    ensures
        well_named(gather(g, regs, node, depth)->0),
    decreases depth, 0nat,
{
    let less = (depth - 1) as nat;
    match g.data(node.signal) {
        SignalData::Reg { next } => {
            if !regs.contains_key(node) {
                let len = regs.len();
                let named = regs.insert(node, reg_names(len));
                assert forall|n: Node| #[trigger] named.contains_key(n) implies exists|i: nat|
                    i < named.len() && named[n] == #[trigger] reg_names(i) by {
                    if n != node {
                        assert(regs.contains_key(n));
                    }
                }
                assert forall|n: Node, m: Node|
                    #![trigger named.contains_key(n), named.contains_key(m)]
                    named.contains_key(n) && named.contains_key(m) && n != m implies named[n]
                    != named[m] by {
                    if n == node {
                        named_apart(regs, m);
                    } else if m == node {
                        named_apart(regs, n);
                    } else {
                        assert(regs.contains_key(n) && regs.contains_key(m));
                    }
                }
                gather_names(g, named, node.beside(next->0), less);
            }
        },
        _ => {
            gather_all_names(g, regs, search_order(g, node)->0, less);
        },
    }
}

/// The next name is none that a register has.
proof fn named_apart(regs: Map<Node, RegNamesView>, n: Node)
    requires
        well_named(regs),
        regs.contains_key(n),
    ensures
        regs[n] != reg_names(regs.len()),
{
    let i = choose|i: nat| i < regs.len() && regs[n] == #[trigger] reg_names(i);
    reg_names_differ(i, regs.len());
}

proof fn gather_all_names(
    g: Graph,
    regs: Map<Node, RegNamesView>,
    nodes: Seq<Node>,
    depth: nat,
)
    requires
        well_named(regs),
        gather_all(g, regs, nodes, depth) is Some,
    ensures
        well_named(gather_all(g, regs, nodes, depth)->0),
    decreases depth, nodes.len() + 1,
{
    if nodes.len() > 0 {
        gather_all_names(g, regs, nodes.drop_last(), depth);
        gather_names(g, gather_all(g, regs, nodes.drop_last(), depth)->0, nodes.last(), depth);
    }
}

/// Whether `to` is an operand of `from` or, where `from` is a register, its next value.
pub open spec fn leads(g: Graph, from: Node, to: Node) -> bool {
    &&& g.has(from.signal)
    &&& match g.data(from.signal) {
        SignalData::Reg { next } => match next {
            Some(next) => to == from.beside(next),
            None => false,
        },
        _ => match operands(g, from) {
            Some(nodes) => nodes.contains(to),
            None => false,
        },
    }
}

/// Whether `from` depends on `to` over `steps` signals, registers among them.
pub open spec fn depends(g: Graph, from: Node, to: Node, steps: nat) -> bool
    decreases steps,
{
    if steps == 0 {
        from == to
    } else {
        exists|via: Node| #[trigger]
            leads(g, from, via) && depends(g, via, to, (steps - 1) as nat)
    }
}

/// Whether `to` is a register that `from` depends on.
pub open spec fn depends_on_register(g: Graph, from: Node, to: Node) -> bool {
    &&& g.data(to.signal) is Reg
    &&& exists|steps: nat| #[trigger] depends(g, from, to, steps)
}

/// Whether each register that a register among `regs` depends on is among them too.
pub open spec fn closed_under_dependence(g: Graph, regs: Set<Node>) -> bool {
    forall|n: Node, m: Node|
        regs.contains(n) && #[trigger] depends_on_register(g, n, m) ==> regs.contains(m)
}

/// What a signal depends on, so does each signal that leads to it.
proof fn depends_further(g: Graph, from: Node, via: Node, to: Node)
    requires
        leads(g, from, via),
        depends_on_register(g, via, to),
    ensures
        depends_on_register(g, from, to),
{
    let steps = choose|steps: nat| #[trigger] depends(g, via, to, steps);
    assert(depends(g, from, to, steps + 1));
}

/// A search finds only registers that the signal depends on.
proof fn gather_finds_dependences(
    g: Graph,
    regs: Map<Node, RegNamesView>,
    node: Node,
    depth: nat,
)
    requires
        gather(g, regs, node, depth) is Some,
    ensures
        forall|n: Node|
            #![trigger (gather(g, regs, node, depth)->0).contains_key(n)]
            (gather(g, regs, node, depth)->0).contains_key(n) && !regs.contains_key(n)
                ==> depends_on_register(g, node, n),
    decreases depth, 0nat,
{
    let found = gather(g, regs, node, depth)->0;
    let less = (depth - 1) as nat;
    match g.data(node.signal) {
        SignalData::Reg { next } => {
            if !regs.contains_key(node) {
                let named = regs.insert(node, reg_names(regs.len()));
                let behind = node.beside(next->0);
                gather_finds_dependences(g, named, behind, less);
                assert(depends(g, node, node, 0));
                assert(leads(g, node, behind));
                assert forall|n: Node|
                    #![trigger found.contains_key(n)]
                    found.contains_key(n) && !regs.contains_key(n) implies depends_on_register(
                    g,
                    node,
                    n,
                ) by {
                    if n != node {
                        assert(!named.contains_key(n));
                        depends_further(g, node, behind, n);
                    }
                }
            }
        },
        _ => {
            let order = search_order(g, node)->0;
            gather_all_finds_dependences(g, regs, order, less);
            assert forall|n: Node|
                #![trigger found.contains_key(n)]
                found.contains_key(n) && !regs.contains_key(n) implies depends_on_register(
                g,
                node,
                n,
            ) by {
                let i = choose|i: int|
                    0 <= i < order.len() && depends_on_register(g, #[trigger] order[i], n);
                let nodes = operands(g, node)->0;
                let j = if !(g.data(node.signal) is Mux) {
                    i
                } else if i == 0 {
                    2
                } else if i == 1 {
                    0
                } else {
                    1
                };
                assert(nodes[j] == order[i]);
                assert(leads(g, node, order[i]));
                depends_further(g, node, order[i], n);
            }
        },
    }
}

proof fn gather_all_finds_dependences(
    g: Graph,
    regs: Map<Node, RegNamesView>,
    nodes: Seq<Node>,
    depth: nat,
)
    requires
        gather_all(g, regs, nodes, depth) is Some,
    ensures
        forall|n: Node|
            #![trigger (gather_all(g, regs, nodes, depth)->0).contains_key(n)]
            (gather_all(g, regs, nodes, depth)->0).contains_key(n) && !regs.contains_key(n)
                ==> exists|i: int|
                0 <= i < nodes.len() && depends_on_register(g, #[trigger] nodes[i], n),
    decreases depth, nodes.len() + 1,
{
    if nodes.len() > 0 {
        let front = nodes.drop_last();
        let named = gather_all(g, regs, front, depth)->0;
        let found = gather_all(g, regs, nodes, depth)->0;
        gather_all_finds_dependences(g, regs, front, depth);
        gather_finds_dependences(g, named, nodes.last(), depth);
        assert forall|n: Node|
            #![trigger found.contains_key(n)]
            found.contains_key(n) && !regs.contains_key(n) implies exists|i: int|
            0 <= i < nodes.len() && depends_on_register(g, #[trigger] nodes[i], n) by {
            if named.contains_key(n) {
                let i = choose|i: int|
                    0 <= i < front.len() && depends_on_register(g, #[trigger] front[i], n);
                assert(depends_on_register(g, nodes[i], n));
            } else {
                assert(depends_on_register(g, nodes[nodes.len() - 1], n));
            }
        }
    }
}

/// A register that `from` depends on is among `found`, where `from` can be computed from
/// those, the next values of the new ones among them can be, and the old ones are closed
/// under dependence.
proof fn dependences_are_found(
    g: Graph,
    regs: Set<Node>,
    found: Set<Node>,
    from: Node,
    depth: nat,
    to: Node,
    steps: nat,
)
    requires
        regs.subset_of(found),
        closed_under_dependence(g, regs),
        forall|n: Node|
            found.contains(n) && !regs.contains(n) ==> #[trigger] settled(g, found, n),
        ready(g, found, from, depth),
        g.data(to.signal) is Reg,
        depends(g, from, to, steps),
    ensures
        found.contains(to),
    decreases steps,
{
    if regs.contains(from) {
        assert(depends_on_register(g, from, to));
    } else if steps > 0 {
        let less = (steps - 1) as nat;
        let via = choose|via: Node| #[trigger] leads(g, from, via) && depends(g, via, to, less);
        if g.data(from.signal) is Reg {
            assert(settled(g, found, from));
            let d = choose|d: nat| #[trigger] ready(g, found, via, d);
            dependences_are_found(g, regs, found, via, d, to, less);
        } else {
            let nodes = operands(g, from)->0;
            let i = choose|i: int| 0 <= i < nodes.len() && nodes[i] == via;
            assert(ready(g, found, nodes[i], (depth - 1) as nat));
            dependences_are_found(g, regs, found, via, (depth - 1) as nat, to, less);
        }
    }
}

/// A search finds exactly the registers that the signal depends on, directly or through
/// other registers: the registers with names after it are those that had one before, which
/// are closed under dependence, and these. They are closed under dependence in turn.
pub proof fn searches_find_what_a_signal_depends_on(
    g: Graph,
    regs: Map<Node, RegNamesView>,
    node: Node,
)
    requires
        closed_under_dependence(g, regs.dom()),
        gathers(g, regs, node),
    ensures
        forall|n: Node|
            #![trigger gathered(g, regs, node).contains_key(n)]
            gathered(g, regs, node).contains_key(n) <==> regs.contains_key(n)
                || depends_on_register(g, node, n),
        closed_under_dependence(g, gathered(g, regs, node).dom()),
{
    let depth = choose|depth: nat| (#[trigger] gather(g, regs, node, depth)) is Some;
    let found = gathered(g, regs, node);
    gather_keeps(g, regs, node, depth);
    gather_settles(g, regs, node, depth);
    gather_finds_dependences(g, regs, node, depth);
    assert(regs.dom().subset_of(found.dom()));
    assert forall|n: Node|
        #![trigger found.contains_key(n)]
        regs.contains_key(n) || depends_on_register(g, node, n) implies found.contains_key(n) by {
        if regs.contains_key(n) {
            assert(regs.dom().contains(n));
        } else {
            let steps = choose|steps: nat| #[trigger] depends(g, node, n, steps);
            dependences_are_found(g, regs.dom(), found.dom(), node, depth, n, steps);
        }
    }
    assert forall|n: Node, m: Node|
        found.dom().contains(n) && #[trigger] depends_on_register(g, n, m) implies found.dom().contains(
    m) by {
        if regs.dom().contains(n) {
            assert(regs.dom().contains(m));
        } else {
            assert(settled(g, found.dom(), n));
            let steps = choose|steps: nat| #[trigger] depends(g, n, m, steps);
            assert(ready(g, found.dom(), n, 1)) by {
                assert(operands(g, n)->0 =~= seq![]);
            }
            dependences_are_found(g, regs.dom(), found.dom(), n, 1, m, steps);
        }
    }
}

/// Where there are no registers, they are closed under dependence.
pub proof fn no_registers_are_closed(g: Graph)
    ensures
        closed_under_dependence(g, State::empty().regs.dom()),
{
}

} // verus!
