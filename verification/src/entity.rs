//! The entity container: the components that one entity carries.

use vstd::prelude::*;
use crate::value::{Value, ValueView};
use crate::ComponentId;

verus! {

/// The data that `components` hold for the component `component_id`: those
/// of the first entry with that id, if there is one.
pub open spec fn lookup(components: Seq<(ComponentId, ValueView)>, component_id: ComponentId) -> Option<
    ValueView,
>
    decreases components.len(),
{
    if components.len() == 0 {
        None
    } else if components[0].0 == component_id {
        Some(components[0].1)
    } else {
        lookup(components.drop_first(), component_id)
    }
}

/// Whether no two of `components` belong to the same component.
pub open spec fn components_distinct(components: Seq<(ComponentId, ValueView)>) -> bool {
    forall|i: int, j: int| 0 <= i < j < components.len() ==> (#[trigger] components[i]).0 != (#[trigger] components[j]).0
}

/// A component is found exactly where an entry has its id, and with
/// distinct ids each entry is found under its own.
pub proof fn lemma_lookup(components: Seq<(ComponentId, ValueView)>, component_id: ComponentId)
    ensures
        lookup(components, component_id) is Some <==> exists|i: int|
            0 <= i < components.len() && (#[trigger] components[i]).0 == component_id,
        components_distinct(components) ==> forall|i: int|
            0 <= i < components.len() && (#[trigger] components[i]).0 == component_id ==> lookup(
                components,
                component_id,
            ) == Some(components[i].1),
    decreases components.len(),
{
    if components.len() > 0 {
        let rest = components.drop_first();
        lemma_lookup(rest, component_id);
        if components[0].0 == component_id {
        } else {
            if lookup(rest, component_id) is Some {
                let i = choose|i: int| 0 <= i < rest.len() && (#[trigger] rest[i]).0 == component_id;
                assert(components[i + 1] == rest[i]);
            }
            if exists|i: int| 0 <= i < components.len() && (#[trigger] components[i]).0 == component_id {
                let i = choose|i: int| 0 <= i < components.len() && (#[trigger] components[i]).0 == component_id;
                assert(rest[i - 1] == components[i]);
            }
        }
        if components_distinct(components) {
            assert(components_distinct(rest)) by {
                assert forall|i: int, j: int| 0 <= i < j < rest.len() implies (#[trigger] rest[i]).0 != (#[trigger] rest[j]).0 by {
                    assert(rest[i] == components[i + 1] && rest[j] == components[j + 1]);
                }
            }
            assert forall|i: int| 0 <= i < components.len() && (#[trigger] components[i]).0 == component_id implies lookup(
                components,
                component_id,
            ) == Some(components[i].1) by {
                if i > 0 {
                    assert(rest[i - 1] == components[i]);
                    assert(components[0].0 != components[i].0);
                }
            }
        }
    }
}

/// The ids and the views of the data of `components`, in order.
pub open spec fn component_views(components: Seq<(ComponentId, Value)>) -> Seq<(ComponentId, ValueView)> {
    Seq::new(components.len(), |i: int| (components[i].0, components[i].1@))
}

/// The components of one entity: at most one value for each component id.
#[derive(Debug)]
pub struct Entity {
    components: Vec<(ComponentId, Value)>,
}

impl Entity {
    /// The components, each with its id, in the order in which they were
    /// added.
    pub closed spec fn view(&self) -> Seq<(ComponentId, ValueView)> {
        component_views(self.components@)
    }

    /// Whether no component occurs twice. This holds of every entity that
    /// exists.
    pub open spec fn wf(&self) -> bool {
        components_distinct(self@)
    }

    /// What holds of every entity.
    #[verifier::type_invariant]
    spec fn inv(&self) -> bool {
        self.wf()
    }

    /// Whether the entity has the component `component_id`.
    pub open spec fn spec_has(&self, component_id: ComponentId) -> bool {
        lookup(self@, component_id) is Some
    }

    /// An entity without components.
    pub fn new() -> (entity: Entity)
        ensures
            entity@ == Seq::<(ComponentId, ValueView)>::empty(),
    {
        let entity = Entity { components: Vec::new() };
        assert(entity@ =~= Seq::<(ComponentId, ValueView)>::empty());
        entity
    }

    /// The number of components.
    pub fn len(&self) -> (n: usize)
        ensures
            n == self@.len(),
    {
        self.components.len()
    }

    /// Where the component `component_id` stands, if the entity has it.
    #[verifier::loop_isolation(false)]
    fn find(&self, component_id: ComponentId) -> (index: Option<usize>)
        ensures
            match index {
                Some(i) => i < self@.len() && self@[i as int].0 == component_id && lookup(self@, component_id)
                    == Some(self@[i as int].1),
                None => lookup(self@, component_id) is None,
            },
    {
        proof {
            use_type_invariant(self);
            lemma_lookup(self@, component_id);
        }
        let mut i: usize = 0;
        while i < self.components.len()
            invariant
                i <= self.components.len(),
                forall|j: int| 0 <= j < i ==> (#[trigger] self@[j]).0 != component_id,
            decreases self.components.len() - i,
        {
            assert(self@[i as int].0 == self.components[i as int].0);
            if self.components[i].0 == component_id {
                return Some(i);
            }
            i += 1;
        }
        None
    }

    /// Whether the entity has the component `component_id`.
    #[verifier::when_used_as_spec(spec_has)]
    pub fn has(&self, component_id: ComponentId) -> (r: bool)
        ensures
            r == self.spec_has(component_id),
    {
        self.find(component_id).is_some()
    }

    /// Stores `value` as the component `component_id`. The entity must not
    /// have that component yet.
    pub fn add(&mut self, component_id: ComponentId, value: Value)
        requires
            !old(self).has(component_id),
        ensures
            final(self)@ == old(self)@.push((component_id, value@)),
    {
        proof {
            use_type_invariant(&*self);
            lemma_lookup(self@, component_id);
        }
        let ghost before = self@;
        let mut components: Vec<(ComponentId, Value)> = Vec::new();
        core::mem::swap(&mut components, &mut self.components);
        components.push((component_id, value));
        proof {
            let after = component_views(components@);
            assert(after =~= before.push((component_id, value@)));
            assert forall|i: int, j: int| 0 <= i < j < after.len() implies (#[trigger] after[i]).0 != (#[trigger] after[j]).0 by {
                if j < before.len() {
                    assert(after[i] == before[i] && after[j] == before[j]);
                } else {
                    assert(after[i] == before[i]);
                }
            }
        }
        self.components = components;
    }

    /// The data of the component `component_id`, if the entity has it.
    pub fn get(&self, component_id: ComponentId) -> (value: Option<&Value>)
        ensures
            match value {
                Some(v) => lookup(self@, component_id) == Some(v@),
                None => lookup(self@, component_id) is None,
            },
    {
        match self.find(component_id) {
            Some(i) => Some(&self.components[i].1),
            None => None,
        }
    }

    /// The component at position `index`, in the order in which the
    /// components were added: its id and its data.
    pub fn component_at(&self, index: usize) -> (component: (ComponentId, &Value))
        requires
            index < self@.len(),
        ensures
            component.0 == self@[index as int].0,
            component.1@ == self@[index as int].1,
    {
        (self.components[index].0, &self.components[index].1)
    }
}

} // verus!
