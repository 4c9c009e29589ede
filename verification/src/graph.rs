//! Client role tags and the graph listing of the companion node-editor
//! channel. The editor's own protocol and state live with the application;
//! the pieces here are the plain values the rest of the server shares.

use vstd::prelude::*;

verus! {

/// Which side of the node editor a connected client serves. `Both`
/// addresses frontends and backends alike, and compares equal to either.
#[derive(Copy, Clone, Debug)]
pub enum ClientType {
    Frontend,
    Backend,
    Both,
}

impl ClientType {
    /// The role a message from this client is repeated to.
    pub fn opposite(&self) -> (r: ClientType)
        ensures
            r == match *self {
                ClientType::Frontend => ClientType::Backend,
                ClientType::Backend => ClientType::Frontend,
                ClientType::Both => ClientType::Both,
            },
    {
        match *self {
            ClientType::Frontend => ClientType::Backend,
            ClientType::Backend => ClientType::Frontend,
            ClientType::Both => ClientType::Both,
        }
    }
}

/// Role equality is addressing, not identity: `Both` matches every role.
pub open spec fn roles_match(a: ClientType, b: ClientType) -> bool {
    match a {
        ClientType::Both => true,
        ClientType::Frontend => !(b is Backend),
        ClientType::Backend => !(b is Frontend),
    }
}

impl PartialEq for ClientType {
    fn eq(&self, other: &Self) -> (r: bool) {
        match *self {
            ClientType::Both => true,
            ClientType::Frontend => !matches!(*other, ClientType::Backend),
            ClientType::Backend => !matches!(*other, ClientType::Frontend),
        }
    }
}

impl vstd::std_specs::cmp::PartialEqSpecImpl for ClientType {
    open spec fn obeys_eq_spec() -> bool {
        true
    }

    open spec fn eq_spec(&self, other: &Self) -> bool {
        roles_match(*self, *other)
    }
}

/// The identifiers of the graphs a store currently holds, sent to a client
/// when it connects.
#[derive(Debug)]
pub struct GraphList {
    pub list: Vec<u32>,
}

} // verus!
