//! Text containers.
use crate::ids::{IdSpan, ID};
use crate::outside::SmallDeps;
use fxhash::FxHashMap;
use vstd::prelude::*;

verus! {

/// The identity of a writer.
pub type ClientID = u64;

/// The kinds of containers.
#[derive(Clone, Copy, PartialEq, Eq, Structural, Debug)]
pub enum ContainerType {
    Text,
    List,
}

/// The identity of a container: the operation that made it, or its name.
#[derive(PartialEq, Eq, Debug)]
pub enum ContainerID {
    Normal { id: ID, container_type: ContainerType },
    Root { name: String, container_type: ContainerType },
}

/// A span of operations, and the operations that it depends on.
pub struct DagNode {
    pub id: IdSpan,
    pub deps: SmallDeps,
}

/// A text, which is a container of operations. `L` is the log that they are in.
pub struct TextContainer<L> {
    id: ContainerID,
    sub_dag: FxHashMap<ClientID, Vec<DagNode>>,
    log_store: L,
}

impl<L> TextContainer<L> {
    /// The identity of the container.
    pub closed spec fn container_id(&self) -> ContainerID {
        self.id
    }

    /// The operations of the container, under the client that made them.
    pub closed spec fn nodes(&self) -> Map<ClientID, Vec<DagNode>> {
        self.sub_dag@
    }

    /// The log that the operations of the container are in.
    pub closed spec fn log(&self) -> L {
        self.log_store
    }

    /// A container without operations.
    pub fn new(id: ContainerID, log_store: L) -> (r: Self)
        ensures
            r.container_id() == id,
            r.nodes() == Map::<ClientID, Vec<DagNode>>::empty(),
            r.log() == log_store,
    {
        TextContainer { id, sub_dag: FxHashMap::default(), log_store }
    }

    /// Deleting leaves a container as it is.
    pub fn delete(&mut self, _pos: usize, _len: usize)
        ensures
            *final(self) == *old(self),
    {
    }

    pub fn id(&self) -> (r: &ContainerID)
        ensures
            *r == self.container_id(),
    {
        &self.id
    }

    pub fn type_(&self) -> (r: ContainerType)
        ensures
            r == ContainerType::Text,
    {
        ContainerType::Text
    }
}

} // verus!
