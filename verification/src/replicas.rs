//! Replica enumeration: a master's diagnostic mapping advertises each replica
//! in a numbered `slaveN` attribute whose value is a comma-separated list of
//! `field=value` items, among them `ip` and `port`.

use vstd::prelude::*;
use crate::text::{split_at_char, split_char, split_once_at, split_once_char, str_eq};
use crate::types::{NodeAddress, AddrView, addr_views};
use crate::info::DiagnosticMap;

verus! {

/// How many numbered replica slots are scanned before the walk stops: the
/// protocol numbers the entries, and the scan stops at the first missing
/// index or at this cap, whichever comes first.
pub const REPLICA_SLOTS: usize = 5;

/// The value of the last item named `key` in a list of `field=value` items.
pub open spec fn last_field(items: Seq<Seq<char>>, key: Seq<char>) -> Option<Seq<char>>
    decreases items.len(),
{
    if items.len() == 0 {
        None
    } else {
        match split_once_at(items.last(), '=') {
            Some(kv) => if kv.0 == key {
                Some(kv.1)
            } else {
                last_field(items.drop_last(), key)
            },
            None => last_field(items.drop_last(), key),
        }
    }
}

/// The address a `slaveN` attribute value advertises, if both its `ip` and
/// `port` items are present.
pub open spec fn replica_addr(v: Seq<char>) -> Option<AddrView> {
    let items = split_at_char(v, ',');
    match (last_field(items, "ip"@), last_field(items, "port"@)) {
        (Some(h), Some(p)) => Some(AddrView { host: h, port: p }),
        _ => None,
    }
}

/// The attribute name of replica slot `i`.
pub open spec fn slave_key(i: int) -> Seq<char> {
    if i == 0 {
        "slave0"@
    } else if i == 1 {
        "slave1"@
    } else if i == 2 {
        "slave2"@
    } else if i == 3 {
        "slave3"@
    } else {
        "slave4"@
    }
}

/// The replica addresses of the slots from `i` on, in slot order: the scan
/// ends at the first missing slot or at the cap, whichever comes first; a
/// slot whose value advertises no address contributes nothing but does not
/// end the scan.
pub open spec fn spec_replicas_from(m: Map<Seq<char>, Seq<char>>, i: int) -> Seq<AddrView>
    decreases REPLICA_SLOTS as int - i,
{
    if i < 0 || i >= REPLICA_SLOTS as int || !m.contains_key(slave_key(i)) {
        Seq::empty()
    } else {
        (match replica_addr(m[slave_key(i)]) {
            Some(a) => seq![a],
            None => Seq::empty(),
        }) + spec_replicas_from(m, i + 1)
    }
}

/// The replica addresses a master's diagnostic mapping advertises.
pub open spec fn spec_replicas(m: Map<Seq<char>, Seq<char>>) -> Seq<AddrView> {
    spec_replicas_from(m, 0)
}

/// The attribute name of replica slot `i`.
fn slave_key_str(i: usize) -> (r: &'static str)
    requires
        i < REPLICA_SLOTS,
    ensures
        r@ == slave_key(i as int),
{
    match i {
        0 => "slave0",
        1 => "slave1",
        2 => "slave2",
        3 => "slave3",
        _ => "slave4",
    }
}

/// Extracts the advertised address from one `slaveN` attribute value.
pub fn replica_field_addr(v: &str) -> (r: Option<NodeAddress>)
    ensures
        (match replica_addr(v@) {
            Some(a) => r matches Some(x) && x@ == a,
            None => r is None,
        }),
{
    let items = split_char(v, ',');
    let ghost iv = items.deep_view();
    let n = items.len();
    let mut host: Option<String> = None;
    let mut port: Option<String> = None;
    proof {
        assert(iv.take(0) =~= Seq::<Seq<char>>::empty());
    }
    let mut i: usize = 0;
    while i < n
        invariant
            0 <= i <= n,
            n == iv.len(),
            iv == items.deep_view(),
            iv == split_at_char(v@, ','),
            host matches Some(h) ==> last_field(iv.take(i as int), "ip"@) == Some(h@),
            host is None ==> last_field(iv.take(i as int), "ip"@) is None,
            port matches Some(p) ==> last_field(iv.take(i as int), "port"@) == Some(p@),
            port is None ==> last_field(iv.take(i as int), "port"@) is None,
        decreases n - i,
    {
        proof {
            reveal_strlit("ip");
            reveal_strlit("port");
            assert("ip"@.len() == 2);
            assert("port"@.len() == 4);
            assert("ip"@ != "port"@);
            assert(iv.take(i + 1).drop_last() =~= iv.take(i as int));
            assert(iv.take(i + 1).last() == iv[i as int]);
            assert(items[i as int]@ == iv[i as int]);
        }
        match split_once_char(&items[i], '=') {
            Some(kv) => {
                let (k, val) = kv;
                if str_eq(k.as_str(), "ip") {
                    host = Some(val);
                } else if str_eq(k.as_str(), "port") {
                    port = Some(val);
                }
            },
            None => {},
        }
        i = i + 1;
    }
    proof {
        assert(iv.take(n as int) =~= iv);
    }
    match (host, port) {
        (Some(h), Some(p)) => Some(NodeAddress { host: h, port: p }),
        _ => None,
    }
}

/// The replicas a master's diagnostic mapping advertises: the numbered
/// `slaveN` attributes, scanned in slot order up to the protocol cap.
pub fn get_replicas(info_map: &DiagnosticMap) -> (r: Vec<NodeAddress>)
    requires
        info_map.wf(),
    ensures
        addr_views(r@) == spec_replicas(info_map.as_map()),
{
    let ghost m = info_map.as_map();
    let mut r: Vec<NodeAddress> = Vec::new();
    proof {
        assert(addr_views(r@) + spec_replicas_from(m, 0) =~= spec_replicas_from(m, 0));
    }
    let mut i: usize = 0;
    while i < REPLICA_SLOTS
        invariant
            0 <= i <= REPLICA_SLOTS,
            info_map.wf(),
            m == info_map.as_map(),
            addr_views(r@) + spec_replicas_from(m, i as int) == spec_replicas(m),
        ensures
            addr_views(r@) == spec_replicas(m),
        decreases REPLICA_SLOTS - i,
    {
        let key = slave_key_str(i);
        match info_map.get(key) {
            Some(v) => {
                match replica_field_addr(v.as_str()) {
                    Some(a) => {
                        let ghost r0 = r@;
                        let ghost av = a@;
                        r.push(a);
                        proof {
                            assert(addr_views(r@) =~= addr_views(r0) + seq![av]);
                            assert(addr_views(r@) + spec_replicas_from(m, i + 1) =~= addr_views(r0)
                                + (seq![av] + spec_replicas_from(m, i + 1)));
                        }
                    },
                    None => {
                        proof {
                            assert(Seq::<AddrView>::empty() + spec_replicas_from(m, i + 1)
                                =~= spec_replicas_from(m, i + 1));
                        }
                    },
                }
            },
            None => {
                proof {
                    assert(spec_replicas_from(m, i as int) =~= Seq::<AddrView>::empty());
                    assert(addr_views(r@) + Seq::<AddrView>::empty() =~= addr_views(r@));
                }
                return r;
            },
        }
        i = i + 1;
    }
    proof {
        assert(spec_replicas_from(m, REPLICA_SLOTS as int) =~= Seq::<AddrView>::empty());
        assert(addr_views(r@) + Seq::<AddrView>::empty() =~= addr_views(r@));
    }
    r
}

} // verus!
