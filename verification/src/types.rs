//! The data model: endpoints, cluster definitions and the error surfaced for
//! a request that can never succeed.

use vstd::prelude::*;
use crate::text::str_eq;

verus! {

/// A reachable endpoint. It has no identity beyond the host/port pair;
/// equality is by value.
#[derive(Debug, Clone, PartialEq, Eq)]
pub struct NodeAddress {
    pub host: String,
    pub port: String,
}

/// The mathematical value of a `NodeAddress`.
#[verifier::ext_equal]
pub struct AddrView {
    pub host: Seq<char>,
    pub port: Seq<char>,
}

impl View for NodeAddress {
    type V = AddrView;

    open spec fn view(&self) -> AddrView {
        AddrView { host: self.host@, port: self.port@ }
    }
}

impl NodeAddress {
    /// A copy of this address with the same value.
    pub fn duplicate(&self) -> (r: NodeAddress)
        ensures
            r@ == self@,
    {
        NodeAddress { host: self.host.clone(), port: self.port.clone() }
    }

    /// Value equality of addresses.
    pub fn same_as(&self, other: &NodeAddress) -> (r: bool)
        ensures
            r == (self@ == other@),
    {
        let r = str_eq(self.host.as_str(), other.host.as_str()) && str_eq(
            self.port.as_str(),
            other.port.as_str(),
        );
        proof {
            if self.host@ == other.host@ && self.port@ == other.port@ {
                assert(self@ =~= other@);
            }
        }
        r
    }
}

/// A named cluster: an ordered list of seed addresses and an optional shared
/// credential (empty means none). Immutable after load.
#[derive(Debug, Clone)]
pub struct ClusterDefinition {
    pub name: String,
    pub seeds: Vec<NodeAddress>,
    pub password: String,
}

/// The mathematical value of a `ClusterDefinition`.
#[verifier::ext_equal]
pub struct DefView {
    pub name: Seq<char>,
    pub seeds: Seq<AddrView>,
    pub password: Seq<char>,
}

/// The values of a sequence of addresses.
pub open spec fn addr_views(s: Seq<NodeAddress>) -> Seq<AddrView> {
    Seq::new(s.len(), |i: int| s[i]@)
}

impl View for ClusterDefinition {
    type V = DefView;

    open spec fn view(&self) -> DefView {
        DefView { name: self.name@, seeds: addr_views(self.seeds@), password: self.password@ }
    }
}

/// The failure surfaced when a poller is requested for a cluster that can
/// never be walked: the name is unknown, or the definition has no seeds.
#[derive(Debug, Clone, Copy, PartialEq, Eq, Structural)]
pub enum ConfigError {
    UnknownCluster,
    NoSeeds,
}

} // verus!
