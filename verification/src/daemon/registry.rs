//! The plugin instances that a plugin interface's own thread holds.
use crate::daemon::host::HostError;
use crate::daemon::plugin::{main_id_after, next_main_id};
use std::collections::HashMap;
use vstd::prelude::*;

verus! {

/// Plugin instances under their numbers. Numbers start at 1.
#[verifier::reject_recursive_types(P)]
pub struct Registry<P> {
    pub next_id: u64,
    pub instances: HashMap<u64, P>,
}

impl<P> Registry<P> {
    pub fn new() -> (r: Self)
        ensures
            r.next_id == 1,
            r.instances@ == Map::<u64, P>::empty(),
    {
        Registry { next_id: 1, instances: HashMap::new() }
    }

    /// Takes in an instance under the next number; where none came about, the error is
    /// handed on.
    pub fn register(&mut self, built: Result<P, HostError>) -> (r: Result<u64, HostError>)
        ensures
            match built {
                Ok(instance) => r == Ok::<u64, HostError>(old(self).next_id)
                    && final(self).instances@ == old(self).instances@.insert(
                    old(self).next_id,
                    instance,
                ) && final(self).next_id == main_id_after(old(self).next_id),
                Err(e) => r == Err::<u64, HostError>(e) && *final(self) == *old(self),
            },
    {
        match built {
            Ok(instance) => {
                let id = self.next_id;
                self.next_id = next_main_id(id);
                self.instances.insert(id, instance);
                Ok(id)
            },
            Err(e) => Err(e),
        }
    }

    /// Lets an instance go, where there is one under that number.
    pub fn release(&mut self, id: u64) -> (r: Option<P>)
        ensures
            r == (if old(self).instances@.contains_key(id) {
                Some(old(self).instances@[id])
            } else {
                None
            }),
            final(self).instances@ == old(self).instances@.remove(id),
            final(self).next_id == old(self).next_id,
    {
        self.instances.remove(&id)
    }
}

} // verus!
