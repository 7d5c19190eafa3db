//! The owner of a module graph while it is being built.

use crate::arena::{
    alloc_instance, alloc_module, alloc_signal, instance_count, instances_in, into_instances,
    into_modules, into_signals, module_count, modules_in, new_instance_arena, new_module_arena,
    new_signal_arena, signal_count, signals_in,
};
use crate::graph::{Graph, Instance, Module, Ports, Signal};
use typed_arena::Arena;
use vstd::prelude::*;
use vstd::string::StringExecFns;

verus! {

/// The parts that a [`Context`] owns.
pub struct ContextView {
    pub modules: Seq<Module>,
    pub signals: Seq<Signal>,
    pub instances: Seq<Instance>,
    /// The positions of the modules, by name.
    pub names: Map<Seq<char>, usize>,
}

impl ContextView {
    /// Whether each module can be found by its name, and each name leads to a module.
    pub open spec fn wf(self) -> bool {
        &&& forall|name: Seq<char>| #[trigger]
            self.names.contains_key(name) ==> {
                &&& self.names[name] < self.modules.len()
                &&& self.modules[self.names[name] as int].name@ == name
            }
        &&& forall|i: int|
            0 <= i < self.modules.len() ==> self.names.contains_key(
                (#[trigger] self.modules[i]).name@,
            ) && self.names[self.modules[i].name@] == i
    }
}

/// A top-level container/owner object for a module graph.
///
/// A `Context` owns all parts of a module graph, and provides an API for creating
/// [`Module`] objects.
#[must_use]
pub struct Context {
    module_arena: Arena<Module>,
    signal_arena: Arena<Signal>,
    instance_arena: Arena<Instance>,
    modules: Ports,
}

impl View for Context {
    type V = ContextView;

    closed spec fn view(&self) -> ContextView {
        ContextView {
            modules: modules_in(self.module_arena),
            signals: signals_in(self.signal_arena),
            instances: instances_in(self.instance_arena),
            names: self.modules@,
        }
    }
}

impl Context {
    /// Creates a new, empty `Context`.
    pub fn new() -> (context: Context)
        ensures
            context@.wf(),
            context@ == (ContextView {
                modules: Seq::empty(),
                signals: Seq::empty(),
                instances: Seq::empty(),
                names: Map::empty(),
            }),
    {
        Context {
            module_arena: new_module_arena(),
            signal_arena: new_signal_arena(),
            instance_arena: new_instance_arena(),
            modules: Ports::new(),
        }
    }

    /// Whether a [`Module`] called `name` exists in this `Context`.
    pub fn contains_module(&self, name: &str) -> (contains: bool)
        ensures
            contains == self@.names.contains_key(name@),
    {
        self.modules.get(name).is_some()
    }

    /// Creates a new [`Module`] called `name` in this `Context`, and returns its position.
    ///
    /// Conventionally, `name` should be `snake_case`, though this is not enforced. No
    /// `Module` with the same `name` may exist in this `Context`.
    pub fn module(&mut self, name: String) -> (module: usize)
        requires
            old(self)@.wf(),
            !old(self)@.names.contains_key(name@),
        ensures
            final(self)@.wf(),
            module == old(self)@.modules.len(),
            final(self)@.modules.len() == module + 1,
            final(self)@.modules.drop_last() == old(self)@.modules,
            final(self)@.modules.last().name@ == name@,
            final(self)@.modules.last().outputs@ == Map::<Seq<char>, usize>::empty(),
            final(self)@ == (ContextView {
                modules: final(self)@.modules,
                names: old(self)@.names.insert(name@, module),
                ..old(self)@
            }),
    {
        let position = module_count(&self.module_arena);
        alloc_module(&mut self.module_arena, Module::new(name.clone()));
        self.modules.insert(name, position);
        proof {
            let before = old(self)@;
            let after = self@;
            assert(after.modules.drop_last() =~= before.modules);
            assert forall|n: Seq<char>| #[trigger] after.names.contains_key(n) implies {
                &&& after.names[n] < after.modules.len()
                &&& after.modules[after.names[n] as int].name@ == n
            } by {
                if n != name@ {
                    assert(before.names.contains_key(n));
                }
            }
            assert forall|i: int| 0 <= i < after.modules.len() implies after.names.contains_key(
                (#[trigger] after.modules[i]).name@,
            ) && after.names[after.modules[i].name@] == i by {
                if i < before.modules.len() {
                    assert(after.modules[i] == before.modules[i]);
                    assert(before.names.contains_key(before.modules[i].name@));
                }
            }
        }
        position
    }

    /// Adds a signal to this `Context`, and returns its position.
    pub fn signal(&mut self, signal: Signal) -> (position: usize)
        ensures
            position == old(self)@.signals.len(),
            old(self)@.wf() ==> final(self)@.wf(),
            final(self)@ == (ContextView {
                signals: old(self)@.signals.push(signal),
                ..old(self)@
            }),
    {
        let position = signal_count(&self.signal_arena);
        alloc_signal(&mut self.signal_arena, signal);
        position
    }

    /// Adds an instance of a module to this `Context`, and returns its position.
    pub fn instance(&mut self, instance: Instance) -> (position: usize)
        ensures
            position == old(self)@.instances.len(),
            old(self)@.wf() ==> final(self)@.wf(),
            final(self)@ == (ContextView {
                instances: old(self)@.instances.push(instance),
                ..old(self)@
            }),
    {
        let position = instance_count(&self.instance_arena);
        alloc_instance(&mut self.instance_arena, instance);
        position
    }

    /// Hands out the module graph.
    pub fn into_graph(self) -> (graph: Graph)
        ensures
            graph.modules@ == self@.modules,
            graph.signals@ == self@.signals,
            graph.instances@ == self@.instances,
    {
        Graph {
            modules: into_modules(self.module_arena),
            signals: into_signals(self.signal_arena),
            instances: into_instances(self.instance_arena),
        }
    }
}

/// Returns the message for a second module called `name` in one [`Context`].
pub fn duplicate_module_message(name: &str) -> (message: String)
    ensures
        message@ == "A module with the name \""@ + name@
            + "\" already exists in this context."@,
{
    let mut message = String::from_str("A module with the name \"");
    message.append(name);
    message.append("\" already exists in this context.");
    message
}

/// The table of a context's modules holds each module under its own name, and no others.
pub proof fn modules_are_found_by_name(context: ContextView, i: int, name: Seq<char>)
    requires
        context.wf(),
    ensures
        0 <= i < context.modules.len() ==> context.names.contains_key(context.modules[i].name@),
        0 <= i < context.modules.len() ==> context.names[context.modules[i].name@] == i,
        context.names.contains_key(name) ==> context.names[name] < context.modules.len(),
        context.names.contains_key(name) ==> context.modules[context.names[name] as int].name@
            == name,
{
}

/// No two modules of a context have the same name.
pub proof fn module_names_are_unique(context: ContextView, i: int, j: int)
    requires
        context.wf(),
        0 <= i < j < context.modules.len(),
    ensures
        context.modules[i].name@ != context.modules[j].name@,
{
}

} // verus!
