//! What holds of compiling, whatever the design: what it keeps, when it succeeds, and what
//! the code that comes out computes.

use crate::bounds::compiled_after_operands;
use crate::faithful::{
    compiled_code_computes_the_design, faithful, feeds, runs_to, stands_for, Names,
};
use crate::graph::{Graph, Node, SignalData};
use crate::growth::{combine_extends, grows, lower_all_grows, lower_grows};
use crate::il::{ExprView, RefScope, TargetScope};
use crate::lowering::{
    gather, gathered, gathers, lower, lower_all, lower_one, lowered, lowered_within, lowers,
    operands, temp, RegNamesView, State,
};
use crate::name::{temp_name, temp_names_differ};
use crate::search::{
    compiles, compiles_more, compiles_only_when_ready, gather_keeps, ready_signals_can_be_compiled,
    register_names_are_distinct, well_named,
};
use crate::semantics::{eval, run, signal_value, Stimulus};
use vstd::prelude::*;

verus! {

/// Compiling a signal keeps the names of registers, the expressions of signals that were
/// compiled before and the assignments that were made before. After these it adds one
/// assignment to each new temporary. The expression of the signal is kept from then on.
pub proof fn compiling_only_adds(g: Graph, st: State, node: Node)
    requires
        lowers(g, st, node),
    ensures
        grows(st, lowered(g, st, node).0),
        lowered(g, st, node).0.exprs.contains_pair(node, lowered(g, st, node).1),
{
    let depth = choose|depth: nat| (#[trigger] lower(g, st, node, depth)) is Some;
    lower_grows(g, st, node, depth);
}

/// Compiling a signal once more gives the same expression and adds nothing, whatever was
/// compiled in between.
pub proof fn compiling_again_adds_nothing(g: Graph, st: State, node: Node, later: State)
    requires
        lowers(g, st, node),
        lowered(g, st, node).0.exprs.submap_of(later.exprs),
    ensures
        lowers(g, later, node),
        lowered(g, later, node) == (later, lowered(g, st, node).1),
{
    compiling_only_adds(g, st, node);
    let depth = choose|depth: nat| (#[trigger] lower(g, st, node, depth)) is Some;
    assert(lowered(g, st, node).0.exprs.dom().contains(node));
    assert(lower(g, later, node, depth) is Some);
}

/// Whether each temporary is assigned at most once, and none is that is still to come.
pub open spec fn assigns_once(st: State) -> bool {
    &&& forall|i: int|
        0 <= i < st.assignments.len() && (#[trigger] st.assignments[i]).target_scope
            == TargetScope::Local ==> exists|k: nat|
            k < st.temps && st.assignments[i].target_name == #[trigger] temp_name(k)
    &&& forall|i: int, j: int|
        0 <= i < j < st.assignments.len() && (#[trigger] st.assignments[i]).target_scope
            == TargetScope::Local && (#[trigger] st.assignments[j]).target_scope
            == TargetScope::Local ==> st.assignments[i].target_name
            != st.assignments[j].target_name
}

/// Compiling assigns each temporary once.
pub proof fn temporaries_are_assigned_once(g: Graph, st: State, node: Node)
    requires
        assigns_once(st),
        lowers(g, st, node),
    ensures
        assigns_once(lowered(g, st, node).0),
{
    let after = lowered(g, st, node).0;
    compiling_only_adds(g, st, node);
    let n = st.assignments.len() as int;
    assert forall|i: int| 0 <= i < n implies st.assignments[i] == after.assignments[i] by {}
    assert forall|i: int|
        0 <= i < after.assignments.len() && (#[trigger] after.assignments[i]).target_scope
            == TargetScope::Local implies exists|k: nat|
        k < after.temps && after.assignments[i].target_name == #[trigger] temp_name(k) by {
        if i < n {
            let k = choose|k: nat|
                k < st.temps && st.assignments[i].target_name == #[trigger] temp_name(k);
            assert(after.assignments[i].target_name == temp_name(k));
        } else {
            assert(after.assignments[i].target_name == temp_name((st.temps + i - n) as nat));
        }
    }
    assert forall|i: int, j: int|
        0 <= i < j < after.assignments.len() && (#[trigger] after.assignments[i]).target_scope
            == TargetScope::Local && (#[trigger] after.assignments[j]).target_scope
            == TargetScope::Local implies after.assignments[i].target_name
        != after.assignments[j].target_name by {
        if j < n {
            assert(st.assignments[i] == after.assignments[i]);
            assert(st.assignments[j] == after.assignments[j]);
        } else if i < n {
            assert(st.assignments[i] == after.assignments[i]);
            let k = choose|k: nat|
                k < st.temps && st.assignments[i].target_name == #[trigger] temp_name(k);
            temp_names_differ(k, (st.temps + j - n) as nat);
        } else {
            temp_names_differ((st.temps + i - n) as nat, (st.temps + j - n) as nat);
        }
    }
}

/// Before anything is compiled, no temporary is assigned.
pub proof fn nothing_compiled_assigns_once()
    ensures
        assigns_once(State::empty()),
{
}

/// Whether each signal among `exprs` can be computed from `regs`, all widths being in range.
pub open spec fn all_compile(g: Graph, exprs: Map<Node, ExprView>, regs: Set<Node>) -> bool {
    forall|n: Node| #[trigger]
        exprs.contains_key(n) ==> exists|depth: nat| #[trigger] compiles(g, regs, n, depth)
}

/// Whether each signal that was compiled can be computed from registers with names, all
/// widths being in range.
pub open spec fn all_ready(g: Graph, st: State) -> bool {
    all_compile(g, st.exprs, st.regs.dom())
}

/// A signal can be compiled exactly where it can be computed from registers with names and
/// all widths are in range: no path of operands goes on forever, each input on the way has a
/// driver, and each register at the end has a name.
pub proof fn signals_compile_where_they_are_ready(g: Graph, st: State, node: Node)
    requires
        all_ready(g, st),
    ensures
        lowers(g, st, node) <==> exists|depth: nat| #[trigger]
            compiles(g, st.regs.dom(), node, depth),
        lowers(g, st, node) ==> all_ready(g, lowered(g, st, node).0),
{
    if lowers(g, st, node) {
        let depth = choose|depth: nat| (#[trigger] lower(g, st, node, depth)) is Some;
        let d = lower_ready(g, st, st.regs.dom(), node, depth);
        lower_grows(g, st, node, depth);
        assert(compiles(g, st.regs.dom(), node, d));
    }
    if exists|depth: nat| #[trigger] compiles(g, st.regs.dom(), node, depth) {
        let depth = choose|depth: nat| #[trigger] compiles(g, st.regs.dom(), node, depth);
        ready_signals_can_be_compiled(g, st, node, depth);
    }
}

proof fn lower_ready(g: Graph, st: State, regs: Set<Node>, node: Node, depth: nat) -> (enough: nat)
    requires
        all_compile(g, st.exprs, regs),
        st.regs.dom().subset_of(regs),
        lower(g, st, node, depth) is Some,
    ensures
        compiles(g, regs, node, enough),
        all_compile(g, (lower(g, st, node, depth)->0).0.exprs, regs),
    decreases depth, 0nat,
{
    if st.exprs.contains_key(node) {
        choose|enough: nat| #[trigger] compiles(g, regs, node, enough)
    } else {
        let nodes = operands(g, node)->0;
        let less = (depth - 1) as nat;
        let enough = lower_all_ready(g, st, regs, nodes, less) + 1;
        let (st1, exprs) = lower_all(g, st, nodes, less)->0;
        combine_extends(g, node, st1, exprs);
        assert(g.data(node.signal) is Reg ==> st.regs.dom().contains(node));
        assert(compiles(g, regs, node, enough));
        let after = (lower(g, st, node, depth)->0).0;
        assert forall|n: Node| #[trigger] after.exprs.contains_key(n) implies exists|d: nat|
            #[trigger] compiles(g, regs, n, d) by {
            if n != node {
                assert(st1.exprs.contains_key(n));
            }
        }
        enough
    }
}

proof fn lower_all_ready(
    g: Graph,
    st: State,
    regs: Set<Node>,
    nodes: Seq<Node>,
    depth: nat,
) -> (enough: nat)
    requires
        all_compile(g, st.exprs, regs),
        st.regs.dom().subset_of(regs),
        lower_all(g, st, nodes, depth) is Some,
    ensures
        forall|i: int| 0 <= i < nodes.len() ==> compiles(g, regs, #[trigger] nodes[i], enough),
        all_compile(g, (lower_all(g, st, nodes, depth)->0).0.exprs, regs),
    decreases depth, nodes.len() + 1,
{
    if nodes.len() == 0 {
        0
    } else {
        let front = nodes.drop_last();
        let first = lower_all_ready(g, st, regs, front, depth);
        let st1 = (lower_all(g, st, front, depth)->0).0;
        lower_all_grows(g, st, front, depth);
        let last = lower_ready(g, st1, regs, nodes.last(), depth);
        let enough = if first <= last {
            last
        } else {
            first
        };
        assert forall|i: int| 0 <= i < nodes.len() implies compiles(
            g,
            regs,
            #[trigger] nodes[i],
            enough,
        ) by {
            if i < front.len() {
                assert(front[i] == nodes[i]);
                compiles_more(g, regs, regs, nodes[i], first, enough);
            } else {
                compiles_more(g, regs, regs, nodes[i], last, enough);
            }
        }
        enough
    }
}

/// Before anything is compiled, there is nothing to compute.
pub proof fn nothing_compiled_is_ready(g: Graph)
    ensures
        all_ready(g, State::empty()),
{
}

/// Searching for registers takes nothing from what was compiled.
pub proof fn searching_keeps_what_was_compiled(g: Graph, st: State, node: Node)
    requires
        all_ready(g, st),
        gathers(g, st.regs, node),
    ensures
        all_ready(g, State { regs: gathered(g, st.regs, node), ..st }),
{
    let found = gathered(g, st.regs, node);
    let after = State { regs: found, ..st };
    let depth = choose|depth: nat| (#[trigger] gather(g, st.regs, node, depth)) is Some;
    gather_keeps(g, st.regs, node, depth);
    assert(st.regs.dom().subset_of(found.dom()));
    assert forall|n: Node| #[trigger] after.exprs.contains_key(n) implies exists|d: nat| #[trigger]
        compiles(g, after.regs.dom(), n, d) by {
        assert(st.exprs.contains_key(n));
        let d = choose|d: nat| #[trigger] compiles(g, st.regs.dom(), n, d);
        compiles_more(g, st.regs.dom(), found.dom(), n, d, d);
        assert(compiles(g, after.regs.dom(), n, d));
    }
}

/// Whether `b` can come after `a` in the life of a compiler: by an assignment to a new
/// temporary, by compiling a signal, by searching for registers, or because the caller
/// edited the assignments or the names of registers.
pub open spec fn follows(g: Graph, a: State, b: State) -> bool {
    ||| exists|expr: ExprView| b == (#[trigger] temp(a, expr)).0
    ||| exists|node: Node| #[trigger] lowers(g, a, node) && b == lowered(g, a, node).0
    ||| exists|node: Node|
        (#[trigger] gathers(g, a.regs, node)) && b == (State {
            regs: gathered(g, a.regs, node),
            ..a
        })
    ||| b == (State { regs: b.regs, assignments: b.assignments, ..a })
}

/// No number of a temporary is given back.
proof fn temporaries_are_never_given_back(g: Graph, life: Seq<State>, i: int, j: int)
    requires
        forall|k: int| 0 <= k < life.len() - 1 ==> follows(g, #[trigger] life[k], life[k + 1]),
        0 <= i <= j < life.len(),
    ensures
        life[i].temps <= life[j].temps,
    decreases j - i,
{
    if i < j {
        temporaries_are_never_given_back(g, life, i, j - 1);
        let (a, b) = (life[j - 1], life[j]);
        assert(follows(g, life[j - 1], life[j - 1 + 1]));
        if exists|node: Node| #[trigger] lowers(g, a, node) && b == lowered(g, a, node).0 {
            let node = choose|node: Node| #[trigger]
                lowers(g, a, node) && b == lowered(g, a, node).0;
            compiling_only_adds(g, a, node);
        }
    }
}

/// No name of a temporary is given out twice in the life of a compiler. Let `life` be the
/// states that it goes through, one after the other. Then a temporary made in state number
/// `i`, by itself or on the way when a signal is compiled, has another name than each that
/// is made in a later state.
pub proof fn no_temporary_is_named_twice(
    g: Graph,
    life: Seq<State>,
    i: int,
    j: int,
    first: ExprView,
    second: ExprView,
)
    requires
        forall|k: int| 0 <= k < life.len() - 1 ==> follows(g, #[trigger] life[k], life[k + 1]),
        0 <= i < j < life.len(),
    ensures
        temp(life[i], first).1 is Ref,
        temp(life[i], first).1->Ref_scope == RefScope::Local,
        temp(life[j], second).1 is Ref,
        temp(life[j], second).1->Ref_scope == RefScope::Local,
        life[i + 1] == temp(life[i], first).0 ==> temp(life[i], first).1->Ref_name != temp(
            life[j],
            second,
        ).1->Ref_name,
        forall|n: nat, m: nat|
            life[i].temps <= n < life[i + 1].temps && life[j].temps <= m ==> #[trigger] temp_name(n)
                != #[trigger] temp_name(m),
{
    temporaries_are_never_given_back(g, life, i + 1, j);
    assert forall|n: nat, m: nat|
        life[i].temps <= n < life[i + 1].temps && life[j].temps <= m implies #[trigger] temp_name(n)
        != #[trigger] temp_name(m) by {
        temp_names_differ(n, m);
    }
}

/// The other side of an instance boundary: the signal inside that an instance's output
/// exposes, or the signal outside that drives an input of the innermost instance.
pub open spec fn other_side(g: Graph, node: Node) -> Option<Node> {
    match g.data(node.signal) {
        SignalData::InstanceOutput { instance, name } => match g.output(instance, name@) {
            Some(output) => Some(Node { path: node.path.push(instance), signal: output }),
            None => None,
        },
        SignalData::Input { name } => if node.path.len() == 0 {
            None
        } else {
            match g.driver(node.path.last(), name@) {
                Some(driver) => Some(Node { path: node.path.drop_last(), signal: driver }),
                None => None,
            }
        },
        _ => None,
    }
}

/// Whether no path of operands from a signal that was compiled goes on forever, and each
/// has the expression of the other side of the instance boundary that it lies at, if it lies
/// at one. This rests on the expressions alone: it stays so whatever becomes of the names of
/// registers and of the assignments.
pub open spec fn agrees_across(g: Graph, st: State) -> bool {
    &&& all_compile(g, st.exprs, Set::full())
    &&& forall|n: Node| #[trigger]
        st.exprs.contains_key(n) && other_side(g, n) is Some ==> st.exprs.contains_pair(
            other_side(g, n)->0,
            st.exprs[n],
        )
}

proof fn lower_agrees(g: Graph, st: State, node: Node, depth: nat)
    requires
        agrees_across(g, st),
        lower(g, st, node, depth) is Some,
    ensures
        agrees_across(g, (lower(g, st, node, depth)->0).0),
    decreases depth, 0nat,
{
    if !st.exprs.contains_key(node) {
        let nodes = operands(g, node)->0;
        let less = (depth - 1) as nat;
        lower_all_agrees(g, st, nodes, less);
        let enough = lower_ready(g, st, Set::full(), node, depth);
        compiles_only_when_ready(g, Set::full(), node, enough);
        compiled_after_operands(g, st, Set::full(), node, depth, enough);
        let (st1, exprs) = lower_all(g, st, nodes, less)->0;
        combine_extends(g, node, st1, exprs);
        let after = (lower(g, st, node, depth)->0).0;
        if other_side(g, node) is Some {
            let to = other_side(g, node)->0;
            lower_one(g, st, to, less);
            lower_grows(g, st, to, less);
            assert(st1.exprs.contains_pair(to, exprs[0]));
        }
        assert forall|n: Node| #[trigger]
            after.exprs.contains_key(n) && other_side(g, n)
                is Some implies after.exprs.contains_pair(other_side(g, n)->0, after.exprs[n]) by {
            if n != node {
                assert(st1.exprs.contains_key(n));
            }
        }
    }
}

proof fn lower_all_agrees(g: Graph, st: State, nodes: Seq<Node>, depth: nat)
    requires
        agrees_across(g, st),
        lower_all(g, st, nodes, depth) is Some,
    ensures
        agrees_across(g, (lower_all(g, st, nodes, depth)->0).0),
    decreases depth, nodes.len() + 1,
{
    if nodes.len() > 0 {
        let front = nodes.drop_last();
        lower_all_agrees(g, st, front, depth);
        let st1 = (lower_all(g, st, front, depth)->0).0;
        lower_agrees(g, st1, nodes.last(), depth);
    }
}

/// Compiling gives both sides of each instance boundary the same expression.
pub proof fn compiling_agrees_across(g: Graph, st: State, node: Node)
    requires
        agrees_across(g, st),
        lowers(g, st, node),
    ensures
        agrees_across(g, lowered(g, st, node).0),
{
    let depth = choose|depth: nat| (#[trigger] lower(g, st, node, depth)) is Some;
    lower_agrees(g, st, node, depth);
}

/// What is changed besides the expressions does not matter to their agreement.
pub proof fn agreement_rests_on_expressions(g: Graph, a: State, b: State)
    requires
        agrees_across(g, a),
        a.exprs == b.exprs,
    ensures
        agrees_across(g, b),
{
}

/// Before anything is compiled, nothing disagrees.
pub proof fn nothing_compiled_agrees(g: Graph)
    ensures
        agrees_across(g, State::empty()),
{
}

/// Crossing an instance boundary adds no mask, no conversion and no temporary. The two sides
/// of a boundary can be compiled alike, give the same expression, and whichever of them is
/// compiled second adds no assignment. So it is after every compiling, searching and edit of
/// the names of registers or of the assignments, since all of these keep what is required.
pub proof fn crossing_an_instance_adds_nothing(g: Graph, st: State, node: Node, to: Node)
    requires
        agrees_across(g, st),
        g.sized(node.signal),
        other_side(g, node) == Some(to),
    ensures
        lowers(g, st, node) <==> lowers(g, st, to),
        lowers(g, st, to) ==> {
            let (st1, e1) = lowered(g, st, node);
            let (st2, e2) = lowered(g, st, to);
            &&& e1 == e2
            &&& lowers(g, st1, to)
            &&& lowered(g, st1, to) == (st1, e1)
            &&& lowers(g, st2, node)
            &&& lowered(g, st2, node) == (st2.remember(node, e2), e2)
        },
{
    assert(operands(g, node) == Some(seq![to]));
    if lowers(g, st, node) {
        let depth = choose|depth: nat| (#[trigger] lower(g, st, node, depth)) is Some;
        if st.exprs.contains_key(node) {
            let d = choose|d: nat| #[trigger] compiles(g, Set::full(), to, d);
            assert(st.exprs.contains_key(to));
            assert(lower(g, st, to, d) is Some);
        } else {
            lower_one(g, st, to, (depth - 1) as nat);
            assert(lower(g, st, to, (depth - 1) as nat) is Some);
        }
    }
    if lowers(g, st, to) {
        let depth = choose|depth: nat| (#[trigger] lower(g, st, to, depth)) is Some;
        let (st2, e2) = lowered(g, st, to);
        lower_grows(g, st, to, depth);
        lower_one(g, st, to, depth);
        assert(st2.exprs.contains_pair(to, e2));
        assert(lower(g, st, node, depth + 1) is Some);
        lowered_within(g, st, node, depth + 1);
        lower_agrees(g, st, node, depth + 1);
        let (st1, e1) = lowered(g, st, node);
        lower_grows(g, st, node, depth + 1);
        assert(st1.exprs.contains_pair(node, e1));
        assert(st1.exprs.contains_pair(to, e1));
        assert(lower(g, st1, to, depth) is Some);
        lowered_within(g, st1, to, depth);
        lower_agrees(g, st, to, depth);
        lower_one(g, st2, to, depth);
        assert(lower(g, st2, to, depth) == Some((st2, e2)));
        assert(lower(g, st2, node, depth + 1) is Some);
        lowered_within(g, st2, node, depth + 1);
        if st2.exprs.contains_key(node) {
            assert(st2.exprs.contains_pair(to, st2.exprs[node]));
            assert(st2.remember(node, e2).exprs =~= st2.exprs);
        }
    }
}

/// What is compiled first computes the design: carried out from the start, its assignments
/// give values to the temporaries with which its expression is worth what the signal is.
pub proof fn first_compiled_code_computes_the_design(
    g: Graph,
    stimulus: Stimulus,
    members: Names,
    st: State,
    node: Node,
    depth: nat,
)
    requires
        st == (State { regs: st.regs, ..State::empty() }),
        lowers(g, st, node),
        feeds(g, st.regs, stimulus, members),
        signal_value(g, stimulus, node, depth) is Some,
    ensures
        exists|locals: Names|
            {
                &&& run(
                    members,
                    Map::empty(),
                    lowered(g, st, node).0.assignments,
                ) == Some(locals)
                &&& (#[trigger] eval(members, locals, lowered(g, st, node).1)) == Some(
                    stands_for(
                        g.width(node.signal),
                        signal_value(g, stimulus, node, depth)->0,
                    ),
                )
            },
{
    let start: Names = Map::empty();
    let (after, expr) = lowered(g, st, node);
    assert(faithful(g, stimulus, members, st, start));
    compiled_code_computes_the_design(g, stimulus, members, st, start, node, depth);
    let locals = choose|locals: Names|
        {
            &&& #[trigger] runs_to(members, st, start, after, locals)
            &&& faithful(g, stimulus, members, after, locals)
            &&& eval(members, locals, expr) == Some(
                stands_for(
                    g.width(node.signal),
                    signal_value(g, stimulus, node, depth)->0,
                ),
            )
        };
    assert(after.assignments.skip(0) =~= after.assignments);
    assert(eval(members, locals, expr) is Some);
}

/// Whatever a design is fed with, there are members that hold it, if no port has the name
/// of a register: different registers have different names.
pub proof fn stimuli_can_be_fed(g: Graph, regs: Map<Node, RegNamesView>, stimulus: Stimulus)
    requires
        well_named(regs),
        forall|n: Node| #[trigger]
            regs.contains_key(n) ==> !stimulus.ports.contains_key(regs[n].value_name),
    ensures
        exists|members: Names| feeds(g, regs, stimulus, members),
{
    let held = |n: Node, name: Seq<char>|
        regs.contains_key(n) && stimulus.regs.contains_key(n) && regs[n].value_name == name;
    let members: Names = Map::new(
        |name: Seq<char>|
            stimulus.ports.contains_key(name) || exists|n: Node| #[trigger] held(n, name),
        |name: Seq<char>|
            if stimulus.ports.contains_key(name) {
                stimulus.ports[name]
            } else {
                let n = choose|n: Node| #[trigger] held(n, name);
                stands_for(g.width(n.signal), stimulus.regs[n])
            },
    );
    assert forall|n: Node|
        #![trigger regs.contains_key(n)]
        #![trigger stimulus.regs.contains_key(n)]
        regs.contains_key(n) && stimulus.regs.contains_key(n) implies members.contains_pair(
        regs[n].value_name,
        stands_for(g.width(n.signal), stimulus.regs[n]),
    ) by {
        let name = regs[n].value_name;
        assert(held(n, name));
        let m = choose|m: Node| #[trigger] held(m, name);
        register_names_are_distinct(regs, n, m);
    }
    assert(stimulus.ports.submap_of(members));
    assert(feeds(g, regs, stimulus, members));
}

} // verus!
