//! Connection resolution with seed failover: candidates are handed out
//! strictly in their configured order, each exactly once, so the first one
//! the surrounding shell can reach is the one the walk uses. There is no
//! retry within one resolution; the polling cadence is the retry mechanism.

use vstd::prelude::*;
use crate::types::{NodeAddress, AddrView, addr_views};

verus! {

/// Hands out candidate addresses strictly in order.
#[derive(Debug)]
pub struct Resolver {
    addrs: Vec<NodeAddress>,
    next: usize,
}

/// The mathematical value of a `Resolver`: the full candidate list and how
/// many candidates were already handed out.
#[verifier::ext_equal]
pub struct ResolverView {
    pub addrs: Seq<AddrView>,
    pub next: int,
}

impl View for Resolver {
    type V = ResolverView;

    closed spec fn view(&self) -> ResolverView {
        ResolverView { addrs: addr_views(self.addrs@), next: self.next as int }
    }
}

impl Resolver {
    /// No candidate beyond the list was handed out.
    pub open spec fn wf(&self) -> bool {
        0 <= self@.next <= self@.addrs.len()
    }

    /// A resolver that will try `addrs` strictly in order.
    pub fn new(addrs: Vec<NodeAddress>) -> (r: Resolver)
        ensures
            r@.addrs == addr_views(addrs@),
            r@.next == 0,
            r.wf(),
    {
        Resolver { addrs, next: 0 }
    }

    /// The next candidate to try, or nothing once the list is exhausted:
    /// every failed candidate is passed over for good within this resolution.
    pub fn next_candidate(&mut self) -> (r: Option<NodeAddress>)
        requires
            old(self).wf(),
        ensures
            final(self).wf(),
            final(self)@.addrs == old(self)@.addrs,
            old(self)@.next < old(self)@.addrs.len() ==> (r matches Some(a) && a@ == old(
                self,
            )@.addrs[old(self)@.next] && final(self)@.next == old(self)@.next + 1),
            old(self)@.next >= old(self)@.addrs.len() ==> (r is None && final(self)@ == old(
                self,
            )@),
    {
        if self.next < self.addrs.len() {
            let a = self.addrs[self.next].duplicate();
            self.next = self.next + 1;
            Some(a)
        } else {
            proof {
                assert(self@ =~= old(self)@);
            }
            None
        }
    }
}

} // verus!
