//! The topology walker, as a state machine. The walker decides which node to
//! contact next; the surrounding shell performs the network call and reports
//! back what came of it. One walk enumerates the authoritative node set —
//! masters first, each followed by its replicas — and collects each reachable
//! node's attribute mapping into an ordered snapshot. Every per-node failure
//! is absorbed as silent omission from the snapshot, never as an error.

use vstd::prelude::*;
use crate::types::{NodeAddress, AddrView, ClusterDefinition, ConfigError, addr_views};
use crate::info::{DiagnosticMap, spec_parse_info, parse_redis_info};
use crate::replicas::{get_replicas, spec_replicas};
use crate::cluster::{get_cluster_masters, spec_cluster_masters};
use crate::num::{parse_u32, spec_parse_u32};
use crate::resolver::{Resolver, ResolverView};

verus! {

/// One visited node's result for one poll cycle.
#[derive(Debug)]
pub struct NodeSnapshot {
    pub addr: NodeAddress,
    pub info: DiagnosticMap,
}

/// The mathematical value of a `NodeSnapshot`: the address and the attribute
/// mapping.
#[verifier::ext_equal]
pub struct SnapView {
    pub addr: AddrView,
    pub info: Map<Seq<char>, Seq<char>>,
}

impl View for NodeSnapshot {
    type V = SnapView;

    open spec fn view(&self) -> SnapView {
        SnapView { addr: self.addr@, info: self.info.as_map() }
    }
}

/// One complete, ordered sequence of per-node results for one poll tick.
pub type Snapshot = Vec<NodeSnapshot>;

/// The values of a sequence of node snapshots.
pub open spec fn snap_views(s: Seq<NodeSnapshot>) -> Seq<SnapView> {
    Seq::new(s.len(), |i: int| s[i]@)
}

/// Some entry of `snap` already carries the address `a`.
pub open spec fn has_addr(snap: Seq<SnapView>, a: AddrView) -> bool {
    exists|i: int| 0 <= i < snap.len() && snap[i].addr == a
}

/// No two entries share an address.
pub open spec fn distinct_addrs(snap: Seq<SnapView>) -> bool {
    forall|i: int, j: int| 0 <= i < j < snap.len() ==> snap[i].addr != snap[j].addr
}

/// What the surrounding shell reports back for the walker's last command:
/// the raw protocol reply, or that the node could not be reached or answered
/// with an error.
pub enum WalkEvent {
    Reply(String),
    Failed,
}

/// The mathematical value of a `WalkEvent`.
pub enum EventView {
    Reply(Seq<char>),
    Failed,
}

impl View for WalkEvent {
    type V = EventView;

    open spec fn view(&self) -> EventView {
        match self {
            WalkEvent::Reply(s) => EventView::Reply(s@),
            WalkEvent::Failed => EventView::Failed,
        }
    }
}

/// What the walker asks the surrounding shell to do next: fetch a node's
/// diagnostic info (connecting first), fetch the cluster's node table over
/// the given node's connection, or nothing — the walk is complete.
#[derive(Debug)]
pub enum WalkCommand {
    FetchInfo(NodeAddress),
    FetchNodes(NodeAddress),
    Finished,
}

/// The mathematical value of a `WalkCommand`.
#[verifier::ext_equal]
pub enum CommandView {
    FetchInfo(AddrView),
    FetchNodes(AddrView),
    Finished,
}

impl View for WalkCommand {
    type V = CommandView;

    open spec fn view(&self) -> CommandView {
        match self {
            WalkCommand::FetchInfo(a) => CommandView::FetchInfo(a@),
            WalkCommand::FetchNodes(a) => CommandView::FetchNodes(a@),
            WalkCommand::Finished => CommandView::Finished,
        }
    }
}

/// Where the walk stands: which command is outstanding and what remains.
enum Phase {
    /// Awaiting the diagnostic info of a candidate seed.
    Seed { addr: NodeAddress },
    /// Awaiting the cluster's node table from the resolved seed.
    Nodes { seed: NodeAddress },
    /// Awaiting the diagnostic info of the first pending master.
    Master { pending: Vec<NodeAddress> },
    /// Awaiting the diagnostic info of the first pending replica; the
    /// remaining masters wait their turn.
    Replica { pending: Vec<NodeAddress>, masters: Vec<NodeAddress> },
    /// The seed is a replica; awaiting the info of its reported master. The
    /// seed's own result is kept in case that master is unreachable.
    Follow { seed_addr: NodeAddress, seed_info: DiagnosticMap, master: NodeAddress },
    /// The walk is complete.
    Done,
}

/// The mathematical value of a `Phase`.
#[verifier::ext_equal]
pub enum PhaseView {
    Seed { addr: AddrView },
    Nodes { seed: AddrView },
    Master { pending: Seq<AddrView> },
    Replica { pending: Seq<AddrView>, masters: Seq<AddrView> },
    Follow { seed_addr: AddrView, seed_info: Map<Seq<char>, Seq<char>>, master: AddrView },
    Done,
}

impl View for Phase {
    type V = PhaseView;

    closed spec fn view(&self) -> PhaseView {
        match self {
            Phase::Seed { addr } => PhaseView::Seed { addr: addr@ },
            Phase::Nodes { seed } => PhaseView::Nodes { seed: seed@ },
            Phase::Master { pending } => PhaseView::Master { pending: addr_views(pending@) },
            Phase::Replica { pending, masters } => PhaseView::Replica {
                pending: addr_views(pending@),
                masters: addr_views(masters@),
            },
            Phase::Follow { seed_addr, seed_info, master } => PhaseView::Follow {
                seed_addr: seed_addr@,
                seed_info: seed_info.as_map(),
                master: master@,
            },
            Phase::Done => PhaseView::Done,
        }
    }
}

/// The mathematical value of a `Walker`.
#[verifier::ext_equal]
pub struct WalkerModel {
    pub resolver: ResolverView,
    pub phase: PhaseView,
    pub snap: Seq<SnapView>,
}

impl WalkerModel {
    /// No candidate beyond the seed list was handed out, snapshot addresses
    /// are distinct, and a pending list that is being worked has a head.
    pub open spec fn wf(self) -> bool {
        &&& 0 <= self.resolver.next <= self.resolver.addrs.len()
        &&& distinct_addrs(self.snap)
        &&& (self.phase matches PhaseView::Master { pending } ==> pending.len() > 0)
        &&& (self.phase matches PhaseView::Replica { pending, .. } ==> pending.len() > 0)
    }
}

/// The mapping indicates native-cluster mode.
pub open spec fn cluster_enabled(m: Map<Seq<char>, Seq<char>>) -> bool {
    m.contains_key("cluster_enabled"@) && m["cluster_enabled"@] == "1"@
}

/// The mapping reports the master role.
pub open spec fn role_master(m: Map<Seq<char>, Seq<char>>) -> bool {
    m.contains_key("role"@) && m["role"@] == "master"@
}

/// The mapping reports the replica role.
pub open spec fn role_replica(m: Map<Seq<char>, Seq<char>>) -> bool {
    m.contains_key("role"@) && m["role"@] == "slave"@
}

/// The replicas to enumerate from a master's mapping: its advertised slots,
/// gated on a positive advertised replica count.
pub open spec fn gated_replicas(m: Map<Seq<char>, Seq<char>>) -> Seq<AddrView> {
    if m.contains_key("connected_slaves"@) && (match spec_parse_u32(m["connected_slaves"@]) {
        Some(c) => c > 0,
        None => false,
    }) {
        spec_replicas(m)
    } else {
        Seq::empty()
    }
}

/// The master a replica's mapping points back at, if both parts of its
/// address are present and non-empty.
pub open spec fn reported_master(m: Map<Seq<char>, Seq<char>>) -> Option<AddrView> {
    let h = if m.contains_key("master_host"@) {
        m["master_host"@]
    } else {
        Seq::empty()
    };
    let p = if m.contains_key("master_port"@) {
        m["master_port"@]
    } else {
        Seq::empty()
    };
    if h.len() > 0 && p.len() > 0 {
        Some(AddrView { host: h, port: p })
    } else {
        None
    }
}

/// Appends a node's result, unless its address was already visited in this
/// walk: a snapshot never carries the same address twice.
pub open spec fn spec_visit(snap: Seq<SnapView>, a: AddrView, m: Map<Seq<char>, Seq<char>>) -> Seq<
    SnapView,
> {
    if has_addr(snap, a) {
        snap
    } else {
        snap.push(SnapView { addr: a, info: m })
    }
}

/// Pulls the next candidate seed, or ends the walk with the seeds exhausted:
/// an unreachable deployment yields an empty snapshot, not an error.
pub open spec fn spec_try_next_seed(rv: ResolverView, snap: Seq<SnapView>) -> (WalkerModel,
    CommandView) {
    if rv.next < rv.addrs.len() {
        let a = rv.addrs[rv.next];
        (
            WalkerModel {
                resolver: ResolverView { addrs: rv.addrs, next: rv.next + 1 },
                phase: PhaseView::Seed { addr: a },
                snap,
            },
            CommandView::FetchInfo(a),
        )
    } else {
        (
            WalkerModel { resolver: rv, phase: PhaseView::Done, snap },
            CommandView::Finished,
        )
    }
}

/// Moves on to whatever is still pending: the current master's replicas
/// first, then the remaining masters, then the end of the walk.
pub open spec fn spec_advance(
    rv: ResolverView,
    snap: Seq<SnapView>,
    rs: Seq<AddrView>,
    ms: Seq<AddrView>,
) -> (WalkerModel, CommandView) {
    if rs.len() > 0 {
        (
            WalkerModel {
                resolver: rv,
                phase: PhaseView::Replica { pending: rs, masters: ms },
                snap,
            },
            CommandView::FetchInfo(rs[0]),
        )
    } else if ms.len() > 0 {
        (
            WalkerModel { resolver: rv, phase: PhaseView::Master { pending: ms }, snap },
            CommandView::FetchInfo(ms[0]),
        )
    } else {
        (
            WalkerModel { resolver: rv, phase: PhaseView::Done, snap },
            CommandView::Finished,
        )
    }
}

/// The walk's transition relation: from the walker's state and the shell's
/// report, the next state and the next command.
pub open spec fn spec_step(w: WalkerModel, ev: EventView) -> (WalkerModel, CommandView) {
    match w.phase {
        PhaseView::Done => (w, CommandView::Finished),
        PhaseView::Seed { addr } => match ev {
            EventView::Failed => spec_try_next_seed(w.resolver, w.snap),
            EventView::Reply(blob) => {
                let m = spec_parse_info(blob);
                if cluster_enabled(m) {
                    (
                        WalkerModel {
                            resolver: w.resolver,
                            phase: PhaseView::Nodes { seed: addr },
                            snap: w.snap,
                        },
                        CommandView::FetchNodes(addr),
                    )
                } else if role_master(m) {
                    spec_advance(
                        w.resolver,
                        spec_visit(w.snap, addr, m),
                        gated_replicas(m),
                        Seq::empty(),
                    )
                } else if role_replica(m) {
                    match reported_master(m) {
                        Some(ma) => (
                            WalkerModel {
                                resolver: w.resolver,
                                phase: PhaseView::Follow {
                                    seed_addr: addr,
                                    seed_info: m,
                                    master: ma,
                                },
                                snap: w.snap,
                            },
                            CommandView::FetchInfo(ma),
                        ),
                        None => (
                            WalkerModel {
                                resolver: w.resolver,
                                phase: PhaseView::Done,
                                snap: w.snap,
                            },
                            CommandView::Finished,
                        ),
                    }
                } else {
                    (
                        WalkerModel { resolver: w.resolver, phase: PhaseView::Done, snap: w.snap },
                        CommandView::Finished,
                    )
                }
            },
        },
        PhaseView::Nodes { seed } => match ev {
            EventView::Failed => (
                WalkerModel { resolver: w.resolver, phase: PhaseView::Done, snap: w.snap },
                CommandView::Finished,
            ),
            EventView::Reply(blob) => spec_advance(
                w.resolver,
                w.snap,
                Seq::empty(),
                spec_cluster_masters(blob),
            ),
        },
        PhaseView::Master { pending } => {
            let a = pending[0];
            let rest = pending.drop_first();
            match ev {
                EventView::Failed => spec_advance(w.resolver, w.snap, Seq::empty(), rest),
                EventView::Reply(blob) => {
                    let m = spec_parse_info(blob);
                    spec_advance(w.resolver, spec_visit(w.snap, a, m), gated_replicas(m), rest)
                },
            }
        },
        PhaseView::Replica { pending, masters } => {
            let a = pending[0];
            let rest = pending.drop_first();
            match ev {
                EventView::Failed => spec_advance(w.resolver, w.snap, rest, masters),
                EventView::Reply(blob) => {
                    let m = spec_parse_info(blob);
                    spec_advance(w.resolver, spec_visit(w.snap, a, m), rest, masters)
                },
            }
        },
        PhaseView::Follow { seed_addr, seed_info, master } => match ev {
            EventView::Failed => (
                WalkerModel {
                    resolver: w.resolver,
                    phase: PhaseView::Done,
                    snap: spec_visit(w.snap, seed_addr, seed_info),
                },
                CommandView::Finished,
            ),
            EventView::Reply(blob) => {
                let m = spec_parse_info(blob);
                spec_advance(
                    w.resolver,
                    spec_visit(w.snap, master, m),
                    gated_replicas(m),
                    Seq::empty(),
                )
            },
        },
    }
}

/// What starting a walk over `seeds` yields: the initial state and the first
/// command.
pub open spec fn spec_start(seeds: Seq<AddrView>) -> (WalkerModel, CommandView) {
    spec_try_next_seed(
        ResolverView { addrs: seeds, next: 0 },
        Seq::empty(),
    )
}

/// The walker's state after `k` failed seed fetches from the start of a walk
/// over `seeds`, with the command standing at that point.
pub open spec fn seed_state(seeds: Seq<AddrView>, k: int) -> (WalkerModel, CommandView)
    decreases k,
{
    if k <= 0 {
        spec_start(seeds)
    } else {
        spec_step(seed_state(seeds, k - 1).0, EventView::Failed)
    }
}

/// Law: failover tries the seeds strictly in order. After `k` failed seed
/// fetches the walker asks for seed `k`, each seed exactly once; when every
/// seed has failed, the walk ends with an empty snapshot and no error.
pub proof fn lemma_failover_order(seeds: Seq<AddrView>, k: int)
    requires
        0 <= k,
    ensures
        k < seeds.len() ==> seed_state(seeds, k).1 == CommandView::FetchInfo(seeds[k]),
        k < seeds.len() ==> seed_state(seeds, k).0.phase == (PhaseView::Seed { addr: seeds[k] }),
        k >= seeds.len() ==> seed_state(seeds, k).1 == CommandView::Finished,
        seed_state(seeds, k).0.snap == Seq::<SnapView>::empty(),
        seed_state(seeds, k).0.resolver.addrs == seeds,
        seed_state(seeds, k).0.resolver.next == (if k < seeds.len() {
            k + 1
        } else {
            seeds.len() as int
        }),
    decreases k,
{
    if k > 0 {
        lemma_failover_order(seeds, k - 1);
    }
}

/// A visit leaves the addresses distinct and only ever appends.
proof fn lemma_visit(snap: Seq<SnapView>, a: AddrView, m: Map<Seq<char>, Seq<char>>)
    requires
        distinct_addrs(snap),
    ensures
        distinct_addrs(spec_visit(snap, a, m)),
        snap.is_prefix_of(spec_visit(snap, a, m)),
{
    if !has_addr(snap, a) {
        let s2 = snap.push(SnapView { addr: a, info: m });
        assert forall|i: int, j: int| 0 <= i < j < s2.len() implies s2[i].addr != s2[j].addr by {
            if j == snap.len() as int {
                assert(s2[i] == snap[i]);
                assert(!has_addr(snap, a));
            } else {
                assert(s2[i] == snap[i] && s2[j] == snap[j]);
            }
        }
        assert(snap.is_prefix_of(s2));
    } else {
        assert(snap.is_prefix_of(snap));
    }
}

/// One step keeps the walker well formed and only ever extends the snapshot.
pub proof fn lemma_step_wf(w: WalkerModel, ev: EventView)
    requires
        w.wf(),
    ensures
        spec_step(w, ev).0.wf(),
        w.snap.is_prefix_of(spec_step(w, ev).0.snap),
{
    match w.phase {
        PhaseView::Seed { addr } => {
            match ev {
                EventView::Reply(blob) => {
                    lemma_visit(w.snap, addr, spec_parse_info(blob));
                },
                EventView::Failed => {},
            }
        },
        PhaseView::Master { pending } => {
            match ev {
                EventView::Reply(blob) => {
                    lemma_visit(w.snap, pending[0], spec_parse_info(blob));
                },
                EventView::Failed => {},
            }
        },
        PhaseView::Replica { pending, masters } => {
            match ev {
                EventView::Reply(blob) => {
                    lemma_visit(w.snap, pending[0], spec_parse_info(blob));
                },
                EventView::Failed => {},
            }
        },
        PhaseView::Follow { seed_addr, seed_info, master } => {
            match ev {
                EventView::Failed => {
                    lemma_visit(w.snap, seed_addr, seed_info);
                },
                EventView::Reply(blob) => {
                    let m = spec_parse_info(blob);
                    lemma_visit(w.snap, master, m);
                },
            }
        },
        _ => {},
    }
    assert(w.snap.is_prefix_of(w.snap));
}

/// Drives one walk: hands out commands, folds the reported results into the
/// snapshot, and ends with the ordered snapshot of every reachable node.
pub struct Walker {
    resolver: Resolver,
    phase: Phase,
    snap: Vec<NodeSnapshot>,
}

impl View for Walker {
    type V = WalkerModel;

    closed spec fn view(&self) -> WalkerModel {
        WalkerModel { resolver: self.resolver@, phase: self.phase@, snap: snap_views(self.snap@) }
    }
}

/// A copy of an address list, value for value.
fn clone_addrs(v: &Vec<NodeAddress>) -> (r: Vec<NodeAddress>)
    ensures
        addr_views(r@) == addr_views(v@),
{
    let n = v.len();
    let mut r: Vec<NodeAddress> = Vec::new();
    let mut i: usize = 0;
    while i < n
        invariant
            0 <= i <= n,
            n == v@.len(),
            r@.len() == i,
            forall|j: int| 0 <= j < i ==> r@[j]@ == v@[j]@,
        decreases n - i,
    {
        r.push(v[i].duplicate());
        i = i + 1;
    }
    proof {
        assert(addr_views(r@) =~= addr_views(v@));
    }
    r
}

/// Whether `snap` already carries `a`.
fn snap_has_addr(snap: &Vec<NodeSnapshot>, a: &NodeAddress) -> (r: bool)
    ensures
        r == has_addr(snap_views(snap@), a@),
{
    let n = snap.len();
    let mut i: usize = 0;
    while i < n
        invariant
            0 <= i <= n,
            n == snap@.len(),
            forall|j: int| 0 <= j < i ==> snap_views(snap@)[j].addr != a@,
        decreases n - i,
    {
        if snap[i].addr.same_as(a) {
            proof {
                assert(snap_views(snap@)[i as int].addr == a@);
            }
            return true;
        }
        i = i + 1;
    }
    false
}

/// Folds one node's result into the snapshot, keeping addresses distinct.
fn visit(snap: &mut Vec<NodeSnapshot>, addr: NodeAddress, info: DiagnosticMap)
    ensures
        snap_views(final(snap)@) == spec_visit(snap_views(old(snap)@), addr@, info.as_map()),
{
    if !snap_has_addr(snap, &addr) {
        let ghost s0 = snap_views(snap@);
        let ghost sv = (SnapView { addr: addr@, info: info.as_map() });
        snap.push(NodeSnapshot { addr, info });
        proof {
            assert(snap_views(snap@) =~= s0.push(sv));
        }
    }
}

/// The replicas to enumerate from a master's mapping.
fn enumerate_replicas(m: &DiagnosticMap) -> (r: Vec<NodeAddress>)
    requires
        m.wf(),
    ensures
        addr_views(r@) == gated_replicas(m.as_map()),
{
    let gate = match m.get("connected_slaves") {
        Some(v) => match parse_u32(v.as_str()) {
            Some(c) => c > 0,
            None => false,
        },
        None => false,
    };
    if gate {
        get_replicas(m)
    } else {
        let r: Vec<NodeAddress> = Vec::new();
        proof {
            assert(addr_views(r@) =~= Seq::<AddrView>::empty());
        }
        r
    }
}

/// The master a replica's mapping points back at, if usable.
fn reported_master_of(m: &DiagnosticMap) -> (r: Option<NodeAddress>)
    requires
        m.wf(),
    ensures
        (match reported_master(m.as_map()) {
            Some(a) => r matches Some(x) && x@ == a,
            None => r is None,
        }),
{
    let host: Option<&String> = m.get("master_host");
    let port: Option<&String> = m.get("master_port");
    match (host, port) {
        (Some(h), Some(p)) => {
            if h.as_str().unicode_len() > 0 && p.as_str().unicode_len() > 0 {
                Some(NodeAddress { host: h.clone(), port: p.clone() })
            } else {
                None
            }
        },
        _ => None,
    }
}

/// Pulls the next candidate seed, or ends the walk.
fn try_next_seed(resolver: Resolver, snap: Vec<NodeSnapshot>) -> (r: (Walker, WalkCommand))
    requires
        resolver.wf(),
    ensures
        (r.0@, r.1@) == spec_try_next_seed(resolver@, snap_views(snap@)),
{
    let mut resolver = resolver;
    match resolver.next_candidate() {
        Some(a) => {
            let target = a.duplicate();
            (
                Walker { resolver, phase: Phase::Seed { addr: a }, snap },
                WalkCommand::FetchInfo(target),
            )
        },
        None => {
            (Walker { resolver, phase: Phase::Done, snap }, WalkCommand::Finished)
        },
    }
}

/// Moves on to whatever is still pending.
fn advance(
    resolver: Resolver,
    snap: Vec<NodeSnapshot>,
    rs: Vec<NodeAddress>,
    ms: Vec<NodeAddress>,
) -> (r: (Walker, WalkCommand))
    ensures
        (r.0@, r.1@) == spec_advance(
            resolver@,
            snap_views(snap@),
            addr_views(rs@),
            addr_views(ms@),
        ),
{
    if rs.len() > 0 {
        let target = rs[0].duplicate();
        (
            Walker { resolver, phase: Phase::Replica { pending: rs, masters: ms }, snap },
            WalkCommand::FetchInfo(target),
        )
    } else if ms.len() > 0 {
        let target = ms[0].duplicate();
        (
            Walker { resolver, phase: Phase::Master { pending: ms }, snap },
            WalkCommand::FetchInfo(target),
        )
    } else {
        (Walker { resolver, phase: Phase::Done, snap }, WalkCommand::Finished)
    }
}

impl Walker {
    /// Starts a walk over the definition's seeds, answering the walker and
    /// its first command. A definition without seeds is a configuration
    /// error: there is nothing to walk.
    pub fn new(def: &ClusterDefinition) -> (r: Result<(Walker, WalkCommand), ConfigError>)
        ensures
            def@.seeds.len() == 0 ==> (r matches Err(e) && e == ConfigError::NoSeeds),
            def@.seeds.len() > 0 ==> (r matches Ok(p) && (p.0@, p.1@) == spec_start(def@.seeds)
                && p.0@.wf()),
    {
        if def.seeds.len() == 0 {
            return Err(ConfigError::NoSeeds);
        }
        let addrs = clone_addrs(&def.seeds);
        let resolver = Resolver::new(addrs);
        let (w, cmd) = try_next_seed(resolver, Vec::new());
        proof {
            assert(snap_views(Seq::<NodeSnapshot>::empty()) =~= Seq::<SnapView>::empty());
        }
        Ok((w, cmd))
    }

    /// Whether the walk is complete.
    pub fn finished(&self) -> (r: bool)
        ensures
            r == (self@.phase is Done),
    {
        match self.phase {
            Phase::Done => true,
            _ => false,
        }
    }

    /// The finished walk's ordered snapshot: masters in table order, each
    /// followed by its reachable replicas, every address at most once.
    pub fn into_snapshot(self) -> (r: Snapshot)
        ensures
            snap_views(r@) == self@.snap,
            self@.wf() ==> distinct_addrs(snap_views(r@)),
    {
        self.snap
    }

    /// Applies the shell's report for the outstanding command and answers
    /// with the next command. After `Finished`, every further event answers
    /// `Finished` again and changes nothing.
    pub fn step(self, ev: WalkEvent) -> (r: (Walker, WalkCommand))
        requires
            self@.wf(),
        ensures
            (r.0@, r.1@) == spec_step(self@, ev@),
            r.0@.wf(),
    {
        proof {
            lemma_step_wf(self@, ev@);
        }
        let ghost w0 = self@;
        let Walker { resolver, phase, mut snap } = self;
        match phase {
            Phase::Done => {
                (Walker { resolver, phase: Phase::Done, snap }, WalkCommand::Finished)
            },
            Phase::Seed { addr } => match ev {
                WalkEvent::Failed => try_next_seed(resolver, snap),
                WalkEvent::Reply(blob) => {
                    let m = parse_redis_info(blob.as_str());
                    if m.has_value("cluster_enabled", "1") {
                        let target = addr.duplicate();
                        (
                            Walker { resolver, phase: Phase::Nodes { seed: addr }, snap },
                            WalkCommand::FetchNodes(target),
                        )
                    } else if m.has_value("role", "master") {
                        let rs = enumerate_replicas(&m);
                        visit(&mut snap, addr, m);
                        let empty: Vec<NodeAddress> = Vec::new();
                        proof {
                            assert(addr_views(empty@) =~= Seq::<AddrView>::empty());
                        }
                        advance(resolver, snap, rs, empty)
                    } else if m.has_value("role", "slave") {
                        match reported_master_of(&m) {
                            Some(ma) => {
                                let target = ma.duplicate();
                                (
                                    Walker {
                                        resolver,
                                        phase: Phase::Follow {
                                            seed_addr: addr,
                                            seed_info: m,
                                            master: ma,
                                        },
                                        snap,
                                    },
                                    WalkCommand::FetchInfo(target),
                                )
                            },
                            None => {
                                (
                                    Walker { resolver, phase: Phase::Done, snap },
                                    WalkCommand::Finished,
                                )
                            },
                        }
                    } else {
                        (Walker { resolver, phase: Phase::Done, snap }, WalkCommand::Finished)
                    }
                },
            },
            Phase::Nodes { seed: _ } => match ev {
                WalkEvent::Failed => {
                    (Walker { resolver, phase: Phase::Done, snap }, WalkCommand::Finished)
                },
                WalkEvent::Reply(blob) => {
                    let ms = get_cluster_masters(blob.as_str());
                    let empty: Vec<NodeAddress> = Vec::new();
                    proof {
                        assert(addr_views(empty@) =~= Seq::<AddrView>::empty());
                    }
                    advance(resolver, snap, empty, ms)
                },
            },
            Phase::Master { pending } => {
                let mut pending = pending;
                let ghost pv = addr_views(pending@);
                let a = pending.remove(0);
                proof {
                    assert(addr_views(pending@) =~= pv.drop_first());
                    assert(a@ == pv[0]);
                }
                match ev {
                    WalkEvent::Failed => {
                        let empty: Vec<NodeAddress> = Vec::new();
                        proof {
                            assert(addr_views(empty@) =~= Seq::<AddrView>::empty());
                        }
                        advance(resolver, snap, empty, pending)
                    },
                    WalkEvent::Reply(blob) => {
                        let m = parse_redis_info(blob.as_str());
                        let rs = enumerate_replicas(&m);
                        visit(&mut snap, a, m);
                        advance(resolver, snap, rs, pending)
                    },
                }
            },
            Phase::Replica { pending, masters } => {
                let mut pending = pending;
                let ghost pv = addr_views(pending@);
                let a = pending.remove(0);
                proof {
                    assert(addr_views(pending@) =~= pv.drop_first());
                    assert(a@ == pv[0]);
                }
                match ev {
                    WalkEvent::Failed => advance(resolver, snap, pending, masters),
                    WalkEvent::Reply(blob) => {
                        let m = parse_redis_info(blob.as_str());
                        visit(&mut snap, a, m);
                        advance(resolver, snap, pending, masters)
                    },
                }
            },
            Phase::Follow { seed_addr, seed_info, master } => match ev {
                WalkEvent::Failed => {
                    visit(&mut snap, seed_addr, seed_info);
                    (Walker { resolver, phase: Phase::Done, snap }, WalkCommand::Finished)
                },
                WalkEvent::Reply(blob) => {
                    let m = parse_redis_info(blob.as_str());
                    let rs = enumerate_replicas(&m);
                    visit(&mut snap, master, m);
                    let empty: Vec<NodeAddress> = Vec::new();
                    proof {
                        assert(addr_views(empty@) =~= Seq::<AddrView>::empty());
                    }
                    advance(resolver, snap, rs, empty)
                },
            },
        }
    }
}

} // verus!
