//! Cluster-node-table parsing: the node-table call answers with one line per
//! cluster member — identifier, `address:port@busport`, flags, and timing
//! fields this core does not interpret. The walk wants every member whose
//! flags name it a master, with its client address.

use vstd::prelude::*;
use crate::text::{
    split_at_char,
    split_char,
    split_spaces,
    split_fields,
    contains_seq,
    str_contains,
    spec_lines,
    split_lines,
};
use crate::types::{NodeAddress, AddrView, addr_views};

verus! {

/// The master address one node-table line names, if its flags field contains
/// the master flag and its address field has the expected
/// `host:port@busport` shape. A line of any other shape names none.
pub open spec fn master_of_line(line: Seq<char>) -> Option<AddrView> {
    let items = split_spaces(line);
    if items.len() > 2 && contains_seq(items[2], "master"@) {
        let parts = split_at_char(items[1], '@');
        if parts.len() == 2 {
            let hp = split_at_char(parts[0], ':');
            if hp.len() == 2 {
                Some(AddrView { host: hp[0], port: hp[1] })
            } else {
                None
            }
        } else {
            None
        }
    } else {
        None
    }
}

/// The master addresses of a list of node-table lines, in table order.
pub open spec fn masters_of_lines(ls: Seq<Seq<char>>) -> Seq<AddrView>
    decreases ls.len(),
{
    if ls.len() == 0 {
        Seq::empty()
    } else {
        masters_of_lines(ls.drop_last()) + (match master_of_line(ls.last()) {
            Some(a) => seq![a],
            None => Seq::empty(),
        })
    }
}

/// The master addresses a raw node-table blob lists, in table order.
pub open spec fn spec_cluster_masters(s: Seq<char>) -> Seq<AddrView> {
    masters_of_lines(spec_lines(s))
}

/// The masters a raw node-table blob lists, in table order. Lines that do
/// not match the expected shape are skipped, not errors.
pub fn get_cluster_masters(nodes: &str) -> (r: Vec<NodeAddress>)
    ensures
        addr_views(r@) == spec_cluster_masters(nodes@),
{
    let lines = split_lines(nodes);
    let ghost ls = lines.deep_view();
    let n = lines.len();
    let mut r: Vec<NodeAddress> = Vec::new();
    proof {
        assert(ls.take(0) =~= Seq::<Seq<char>>::empty());
        assert(addr_views(r@) =~= masters_of_lines(ls.take(0)));
    }
    let mut i: usize = 0;
    while i < n
        invariant
            0 <= i <= n,
            n == lines.len(),
            ls == lines.deep_view(),
            ls == spec_lines(nodes@),
            addr_views(r@) == masters_of_lines(ls.take(i as int)),
        decreases n - i,
    {
        proof {
            assert(ls.take(i + 1).drop_last() =~= ls.take(i as int));
            assert(ls.take(i + 1).last() == ls[i as int]);
            assert(lines[i as int]@ == ls[i as int]);
        }
        let found = master_in_line(&lines[i]);
        match found {
            Some(a) => {
                let ghost r0 = r@;
                let ghost av = a@;
                r.push(a);
                proof {
                    assert(addr_views(r@) =~= addr_views(r0) + seq![av]);
                }
            },
            None => {
                proof {
                    assert(addr_views(r@) + Seq::<AddrView>::empty() =~= addr_views(r@));
                }
            },
        }
        i = i + 1;
    }
    proof {
        assert(ls.take(n as int) =~= ls);
    }
    r
}

/// The master address one node-table line names, if any.
fn master_in_line(line: &String) -> (r: Option<NodeAddress>)
    ensures
        (match master_of_line(line@) {
            Some(a) => r matches Some(x) && x@ == a,
            None => r is None,
        }),
{
    let items = split_fields(line.as_str());
    if items.len() > 2 && str_contains(items[2].as_str(), "master") {
        let parts = split_char(items[1].as_str(), '@');
        if parts.len() == 2 {
            let hp = split_char(parts[0].as_str(), ':');
            if hp.len() == 2 {
                let host = hp[0].clone();
                let port = hp[1].clone();
                proof {
                    assert(hp.deep_view()[0] == host@);
                    assert(hp.deep_view()[1] == port@);
                }
                Some(NodeAddress { host, port })
            } else {
                None
            }
        } else {
            None
        }
    } else {
        None
    }
}

} // verus!
