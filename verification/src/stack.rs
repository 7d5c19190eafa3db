//! The stack of instances that leads from the top of a design to a module.

use vstd::prelude::*;

verus! {

/// A stack of instances, each given by its position in the graph. The innermost
/// instance is on top.
#[derive(PartialEq, Eq, Debug)]
pub struct InstanceStack {
    instances: Vec<usize>,
}

impl View for InstanceStack {
    type V = Seq<usize>;

    closed spec fn view(&self) -> Seq<usize> {
        self.instances@
    }
}

impl InstanceStack {
    /// Creates an empty stack: the top of the design.
    pub fn new() -> (stack: InstanceStack)
        ensures
            stack@ == Seq::<usize>::empty(),
    {
        InstanceStack { instances: Vec::new() }
    }

    /// Returns this stack with `instance` on top.
    pub fn push(&self, instance: usize) -> (stack: InstanceStack)
        ensures
            stack@ == self@.push(instance),
    {
        let mut instances = self.instances.clone();
        instances.push(instance);
        assert(instances@ =~= self@.push(instance));
        InstanceStack { instances }
    }

    /// Returns the instance on top and the stack below it, unless this stack is empty.
    pub fn pop(&self) -> (popped: Option<(usize, InstanceStack)>)
        ensures
            self@.len() == 0 <==> popped is None,
            popped matches Some((instance, tail)) ==> {
                &&& instance == self@.last()
                &&& tail@ == self@.drop_last()
            },
    {
        let mut instances = self.instances.clone();
        assert(instances@ =~= self@);
        match instances.pop() {
            Some(instance) => {
                assert(instances@ =~= self@.drop_last());
                Some((instance, InstanceStack { instances }))
            },
            None => None,
        }
    }

    /// Whether both stacks hold the same instances in the same order.
    pub fn same(&self, other: &InstanceStack) -> (same: bool)
        ensures
            same == (self@ == other@),
    {
        if self.instances.len() != other.instances.len() {
            return false;
        }
        let mut i: usize = 0;
        while i < self.instances.len()
            invariant
                i <= self.instances@.len(),
                self.instances@.len() == other.instances@.len(),
                forall|j: int| 0 <= j < i ==> self.instances@[j] == other.instances@[j],
            decreases self.instances@.len() - i,
        {
            if self.instances[i] != other.instances[i] {
                return false;
            }
            i += 1;
        }
        assert(self@ =~= other@);
        true
    }
}

impl Clone for InstanceStack {
    fn clone(&self) -> (copy: InstanceStack)
        ensures
            copy@ == self@,
    {
        let instances = self.instances.clone();
        assert(instances@ =~= self@);
        InstanceStack { instances }
    }
}

} // verus!
