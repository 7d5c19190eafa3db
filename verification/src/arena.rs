//! The arenas that hold the parts of a module graph while it is being built.

use crate::graph::{Instance, Module, Signal};
use typed_arena::Arena;
use vstd::prelude::*;

verus! {

/// `typed_arena::Arena`: values of one type, held in the order in which they were allocated.
#[verifier::external_type_specification]
#[verifier::external_body]
#[verifier::reject_recursive_types(T)]
pub struct ExArena<T>(Arena<T>);

/// The modules in an arena, in the order in which they were allocated.
pub uninterp spec fn modules_in(arena: Arena<Module>) -> Seq<Module>;

/// The signals in an arena, in the order in which they were allocated.
pub uninterp spec fn signals_in(arena: Arena<Signal>) -> Seq<Signal>;

/// The instances in an arena, in the order in which they were allocated.
pub uninterp spec fn instances_in(arena: Arena<Instance>) -> Seq<Instance>;

/// Calls `typed_arena::Arena::new`: a new arena holds no module.
#[verifier::external_body]
pub(crate) fn new_module_arena() -> (arena: Arena<Module>)
    ensures
        modules_in(arena) == Seq::<Module>::empty(),
{
    Arena::new()
}

/// Calls `typed_arena::Arena::new`: a new arena holds no signal.
#[verifier::external_body]
pub(crate) fn new_signal_arena() -> (arena: Arena<Signal>)
    ensures
        signals_in(arena) == Seq::<Signal>::empty(),
{
    Arena::new()
}

/// Calls `typed_arena::Arena::new`: a new arena holds no instance.
#[verifier::external_body]
pub(crate) fn new_instance_arena() -> (arena: Arena<Instance>)
    ensures
        instances_in(arena) == Seq::<Instance>::empty(),
{
    Arena::new()
}

/// Calls `typed_arena::Arena::len`: the number of modules that the arena holds.
#[verifier::external_body]
pub(crate) fn module_count(arena: &Arena<Module>) -> (count: usize)
    ensures
        count == modules_in(*arena).len(),
{
    arena.len()
}

/// Calls `typed_arena::Arena::len`: the number of signals that the arena holds.
#[verifier::external_body]
pub(crate) fn signal_count(arena: &Arena<Signal>) -> (count: usize)
    ensures
        count == signals_in(*arena).len(),
{
    arena.len()
}

/// Calls `typed_arena::Arena::len`: the number of instances that the arena holds.
#[verifier::external_body]
pub(crate) fn instance_count(arena: &Arena<Instance>) -> (count: usize)
    ensures
        count == instances_in(*arena).len(),
{
    arena.len()
}

/// Calls `typed_arena::Arena::alloc`: the arena holds the module after those that it held.
#[verifier::external_body]
pub(crate) fn alloc_module(arena: &mut Arena<Module>, module: Module)
    ensures
        modules_in(*final(arena)) == modules_in(*old(arena)).push(module),
{
    arena.alloc(module);
}

/// Calls `typed_arena::Arena::alloc`: the arena holds the signal after those that it held.
#[verifier::external_body]
pub(crate) fn alloc_signal(arena: &mut Arena<Signal>, signal: Signal)
    ensures
        signals_in(*final(arena)) == signals_in(*old(arena)).push(signal),
{
    arena.alloc(signal);
}

/// Calls `typed_arena::Arena::alloc`: the arena holds the instance after those that it held.
#[verifier::external_body]
pub(crate) fn alloc_instance(arena: &mut Arena<Instance>, instance: Instance)
    ensures
        instances_in(*final(arena)) == instances_in(*old(arena)).push(instance),
{
    arena.alloc(instance);
}

/// Calls `typed_arena::Arena::into_vec`: the modules in the order in which they were
/// allocated.
#[verifier::external_body]
pub(crate) fn into_modules(arena: Arena<Module>) -> (modules: Vec<Module>)
    ensures
        modules@ == modules_in(arena),
{
    arena.into_vec()
}

/// Calls `typed_arena::Arena::into_vec`: the signals in the order in which they were
/// allocated.
#[verifier::external_body]
pub(crate) fn into_signals(arena: Arena<Signal>) -> (signals: Vec<Signal>)
    ensures
        signals@ == signals_in(arena),
{
    arena.into_vec()
}

/// Calls `typed_arena::Arena::into_vec`: the instances in the order in which they were
/// allocated.
#[verifier::external_body]
pub(crate) fn into_instances(arena: Arena<Instance>) -> (instances: Vec<Instance>)
    ensures
        instances@ == instances_in(arena),
{
    arena.into_vec()
}

} // verus!
