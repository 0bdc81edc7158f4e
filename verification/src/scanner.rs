//! The scanning engine's decisions and result aggregation.
//!
//! The network work itself — ICMP echoes, TCP connects, task scheduling —
//! happens outside this crate.  What stands here is everything the run
//! decides and accumulates: which ICMP senders a target list needs, how a
//! connect attempt is classified, how probe identifiers and payloads are
//! chosen, and how the stream of per-port outcomes folds into per-address
//! statuses.

use vstd::prelude::*;

verus! {

use crate::ports::PortsStatus;
use crate::sorting::sorted;
use vstd::multiset::Multiset;

/// The IP family of a target address.
#[derive(Clone, Copy, Debug, PartialEq, Eq, Structural)]
pub enum AddrFamily {
    V4,
    V6,
}

/// Failure to set a scan up.
#[derive(Clone, Copy, Debug, PartialEq, Eq, Structural)]
pub enum ScanError {
    /// The target list yields no usable ICMP capability: it is empty.
    NoSupportedAddressFamily,
}

/// Which ICMP senders a target list calls for: a v4 sender when any
/// target is v4, a v6 sender when any is v6.  An empty list needs
/// neither, which is a construction-time failure.
pub fn required_pingers(addrs: &Vec<AddrFamily>) -> (r: Result<(bool, bool), ScanError>)
    ensures
        r is Ok <==> addrs@.len() > 0,
        r is Ok ==> (r->Ok_0.0 <==> addrs@.contains(AddrFamily::V4)),
        r is Ok ==> (r->Ok_0.1 <==> addrs@.contains(AddrFamily::V6)),
        r is Err ==> r->Err_0 == ScanError::NoSupportedAddressFamily,
{
    let mut any4 = false;
    let mut any6 = false;
    let mut i: usize = 0;
    while i < addrs.len()
        invariant
            i <= addrs@.len(),
            any4 <==> exists|k: int| 0 <= k < i && addrs@[k] == AddrFamily::V4,
            any6 <==> exists|k: int| 0 <= k < i && addrs@[k] == AddrFamily::V6,
        decreases addrs@.len() - i,
    {
        match addrs[i] {
            AddrFamily::V4 => {
                any4 = true;
                proof {
                    assert(addrs@[i as int] == AddrFamily::V4);
                }
            },
            AddrFamily::V6 => {
                any6 = true;
                proof {
                    assert(addrs@[i as int] == AddrFamily::V6);
                }
            },
        }
        i = i + 1;
    }
    if !any4 && !any6 {
        proof {
            if addrs@.len() > 0 {
                assert(addrs@[0] == AddrFamily::V4 || addrs@[0] == AddrFamily::V6);
            }
        }
        Err(ScanError::NoSupportedAddressFamily)
    } else {
        Ok((any4, any6))
    }
}

/// How one TCP connect attempt ended.
#[derive(Clone, Copy, Debug, PartialEq, Eq, Structural)]
pub enum ConnectOutcome {
    /// The connection was established within the deadline.
    Connected,
    /// The deadline passed without a connection.
    TimedOut,
    /// The connection was refused, or failed with another connect-level
    /// error.
    Failed,
}

/// A port counts as open exactly when the connect attempt succeeded
/// within its deadline; a timeout, a refusal or any other connect-level
/// error counts as closed.
pub fn classify_connect(outcome: ConnectOutcome) -> (is_open: bool)
    ensures
        is_open <==> outcome == ConnectOutcome::Connected,
{
    match outcome {
        ConnectOutcome::Connected => true,
        ConnectOutcome::TimedOut => false,
        ConnectOutcome::Failed => false,
    }
}

/// The echo identifier for the address at index `idx`: the index,
/// truncated to 16 bits.
pub fn probe_identifier(idx: usize) -> (id: u16)
    ensures
        id as int == idx as int % 65536,
{
    (idx % 65536) as u16
}

/// The fixed 56-byte zero payload that every echo request carries.
pub fn probe_payload() -> (p: Vec<u8>)
    ensures
        p@.len() == 56,
        forall|i: int| 0 <= i < p@.len() ==> p@[i] == 0,
{
    let mut p: Vec<u8> = Vec::new();
    let mut i: usize = 0;
    while i < 56
        invariant
            i <= 56,
            p@.len() == i,
            forall|k: int| 0 <= k < p@.len() ==> p@[k] == 0,
        decreases 56 - i,
    {
        p.push(0);
        i = i + 1;
    }
    p
}

/// The unit of work result: one connect attempt's classification, flowing
/// from a port task to the aggregator.  The address is identified by its
/// index in the target list.
#[derive(Clone, Copy, Debug, PartialEq, Eq, Structural)]
pub struct PortOutcome {
    pub addr: usize,
    pub port: u16,
    pub is_open: bool,
}

/// The mathematical content of one address's slot: its open and closed
/// lists, or `None` where no outcome ever arrived.
pub open spec fn status_model(st: Option<PortsStatus>) -> Option<(Seq<u16>, Seq<u16>)> {
    match st {
        Some(s) => Some((s.open_ports@, s.closed_ports@)),
        None => None,
    }
}

/// One outcome folded into the model: the port joins the open or the
/// closed list of its address, whose slot is created on first use.
pub open spec fn step_model(m: Seq<Option<(Seq<u16>, Seq<u16>)>>, o: PortOutcome) -> Seq<
    Option<(Seq<u16>, Seq<u16>)>,
> {
    if 0 <= o.addr < m.len() {
        let cur = match m[o.addr as int] {
            Some(p) => p,
            None => (Seq::<u16>::empty(), Seq::<u16>::empty()),
        };
        let nxt = if o.is_open {
            (cur.0.push(o.port), cur.1)
        } else {
            (cur.0, cur.1.push(o.port))
        };
        m.update(o.addr as int, Some(nxt))
    } else {
        m
    }
}

/// A whole stream of outcomes folded in, first to last.
pub open spec fn fold_model(
    m: Seq<Option<(Seq<u16>, Seq<u16>)>>,
    os: Seq<PortOutcome>,
) -> Seq<Option<(Seq<u16>, Seq<u16>)>>
    decreases os.len(),
{
    if os.len() == 0 {
        m
    } else {
        fold_model(step_model(m, os[0]), os.drop_first())
    }
}

/// Per-address statuses, keyed by each address's index in the target
/// list.  An address acquires an entry only when its first outcome
/// arrives; one whose reachability probe failed produces no outcomes and
/// stays absent.
pub struct ScanResults {
    pub statuses: Vec<Option<PortsStatus>>,
    pub num_ports: usize,
}

impl ScanResults {
    /// The open and closed lists per address index, `None` where no
    /// outcome arrived.
    pub open spec fn model(&self) -> Seq<Option<(Seq<u16>, Seq<u16>)>> {
        Seq::new(self.statuses@.len(), |i: int| status_model(self.statuses@[i]))
    }

    /// Empty results for `num_addrs` addresses; `num_ports` only sizes
    /// each status's buffers on creation.
    pub fn new(num_addrs: usize, num_ports: usize) -> (r: Self)
        ensures
            r.model().len() == num_addrs,
            forall|i: int| 0 <= i < num_addrs ==> r.model()[i] is None,
            r.num_ports == num_ports,
    {
        let mut statuses: Vec<Option<PortsStatus>> = Vec::new();
        let mut i: usize = 0;
        while i < num_addrs
            invariant
                i <= num_addrs,
                statuses@.len() == i,
                forall|k: int| 0 <= k < statuses@.len() ==> statuses@[k] is None,
            decreases num_addrs - i,
        {
            statuses.push(None);
            i = i + 1;
        }
        ScanResults { statuses, num_ports }
    }

    /// Folds one outcome in, creating its address's entry on first use.
    pub fn record_outcome(&mut self, o: PortOutcome)
        requires
            o.addr < old(self).model().len(),
        ensures
            final(self).model() == step_model(old(self).model(), o),
            final(self).num_ports == old(self).num_ports,
    {
        let ghost pre = self.statuses@;
        let cur = self.statuses.remove(o.addr);
        let mut st = match cur {
            Some(st) => st,
            None => PortsStatus::new(self.num_ports),
        };
        st.record(o.port, o.is_open);
        self.statuses.insert(o.addr, Some(st));
        proof {
            assert(self.statuses@ =~= pre.update(o.addr as int, Some(st)));
            assert(self.model() =~= step_model(
                Seq::new(pre.len(), |i: int| status_model(pre[i])),
                o,
            ));
        }
    }
    /// Folds a batch of outcomes in, in order.
    pub fn record_all(&mut self, outcomes: &Vec<PortOutcome>)
        requires
            forall|i: int|
                0 <= i < outcomes@.len() ==> (#[trigger] outcomes@[i]).addr < old(
                    self,
                ).model().len(),
        ensures
            final(self).model() == fold_model(old(self).model(), outcomes@),
            final(self).num_ports == old(self).num_ports,
    {
        let n = outcomes.len();
        let mut i: usize = 0;
        while i < n
            invariant
                i <= n,
                n == outcomes@.len(),
                forall|k: int|
                    0 <= k < outcomes@.len() ==> (#[trigger] outcomes@[k]).addr < old(
                        self,
                    ).model().len(),
                self.model() == fold_model(old(self).model(), outcomes@.subrange(0, i as int)),
                self.num_ports == old(self).num_ports,
                self.model().len() == old(self).model().len(),
            decreases n - i,
        {
            proof {
                lemma_fold_model_len(old(self).model(), outcomes@.subrange(0, i as int));
            }
            self.record_outcome(outcomes[i]);
            proof {
                assert(outcomes@.subrange(0, i + 1).drop_last() =~= outcomes@.subrange(
                    0,
                    i as int,
                ));
                lemma_fold_model_snoc(
                    old(self).model(),
                    outcomes@.subrange(0, i as int),
                    outcomes@[i as int],
                );
                assert(outcomes@.subrange(0, i + 1) =~= outcomes@.subrange(0, i as int).push(
                    outcomes@[i as int],
                ));
                lemma_fold_model_len(old(self).model(), outcomes@.subrange(0, i + 1));
            }
            i = i + 1;
        }
        proof {
            assert(outcomes@.subrange(0, n as int) =~= outcomes@);
        }
    }

    /// Sorts every present status, leaving absent addresses absent and
    /// each list's elements unchanged.
    pub fn finalize(&mut self)
        ensures
            final(self).model().len() == old(self).model().len(),
            forall|i: int|
                0 <= i < old(self).model().len() ==> ((#[trigger] old(self).model()[i]) is None
                    <==> final(self).model()[i] is None),
            forall|i: int|
                0 <= i < old(self).model().len() ==> ((#[trigger] old(self).model()[i]) matches Some(
                    p,
                ) ==> final(self).model()[i] matches Some(q) && sorted(q.0) && sorted(q.1)
                    && q.0.to_multiset() == p.0.to_multiset() && q.1.to_multiset()
                    == p.1.to_multiset()),
    {
        let n = self.statuses.len();
        let mut i: usize = 0;
        while i < n
            invariant
                i <= n,
                n == self.statuses@.len(),
                self.model().len() == old(self).model().len(),
                forall|k: int|
                    i <= k < n ==> (#[trigger] self.model()[k]) == old(self).model()[k],
                forall|k: int|
                    0 <= k < i ==> ((#[trigger] old(self).model()[k]) is None <==> self.model()[k] is None),
                forall|k: int|
                    0 <= k < i ==> ((#[trigger] old(self).model()[k]) matches Some(p)
                        ==> self.model()[k] matches Some(q) && sorted(q.0) && sorted(q.1)
                        && q.0.to_multiset() == p.0.to_multiset() && q.1.to_multiset()
                        == p.1.to_multiset()),
            decreases n - i,
        {
            let ghost pre = self.statuses@;
            let cur = self.statuses.remove(i);
            match cur {
                Some(mut st) => {
                    st.sort();
                    self.statuses.insert(i, Some(st));
                    proof {
                        assert(self.statuses@ =~= pre.update(i as int, Some(st)));
                    }
                },
                None => {
                    self.statuses.insert(i, None);
                    proof {
                        assert(self.statuses@ =~= pre);
                    }
                },
            }
            i = i + 1;
        }
    }
}

/// The length of the model never changes as outcomes fold in.
pub proof fn lemma_fold_model_len(m: Seq<Option<(Seq<u16>, Seq<u16>)>>, os: Seq<PortOutcome>)
    ensures
        fold_model(m, os).len() == m.len(),
    decreases os.len(),
{
    if os.len() > 0 {
        lemma_fold_model_len(step_model(m, os[0]), os.drop_first());
    }
}

/// Folding a stream and then one more outcome is folding the extended
/// stream.
pub proof fn lemma_fold_model_snoc(
    m: Seq<Option<(Seq<u16>, Seq<u16>)>>,
    os: Seq<PortOutcome>,
    o: PortOutcome,
)
    ensures
        fold_model(m, os.push(o)) == step_model(fold_model(m, os), o),
    decreases os.len(),
{
    if os.len() == 0 {
        assert(os.push(o)[0] == o);
        assert(os.push(o).drop_first() =~= Seq::<PortOutcome>::empty());
        assert(fold_model(step_model(m, o), Seq::<PortOutcome>::empty()) == step_model(m, o));
        assert(fold_model(m, os) == m);
    } else {
        assert(os.push(o)[0] == os[0]);
        assert(os.push(o).drop_first() =~= os.drop_first().push(o));
        lemma_fold_model_snoc(step_model(m, os[0]), os.drop_first(), o);
        assert(fold_model(m, os.push(o)) == fold_model(
            step_model(m, os[0]),
            os.drop_first().push(o),
        ));
        assert(fold_model(m, os) == fold_model(step_model(m, os[0]), os.drop_first()));
    }
}

/// Ports carried by the outcomes for address `a`, in stream order.
pub open spec fn ports_for(os: Seq<PortOutcome>, a: int) -> Seq<u16>
    decreases os.len(),
{
    if os.len() == 0 {
        Seq::empty()
    } else {
        let rest = ports_for(os.drop_first(), a);
        if os[0].addr == a {
            seq![os[0].port] + rest
        } else {
            rest
        }
    }
}

/// The open ports among the outcomes for `a`, in stream order.
pub open spec fn open_ports_for(os: Seq<PortOutcome>, a: int) -> Seq<u16>
    decreases os.len(),
{
    if os.len() == 0 {
        Seq::empty()
    } else {
        let rest = open_ports_for(os.drop_first(), a);
        if os[0].addr == a && os[0].is_open {
            seq![os[0].port] + rest
        } else {
            rest
        }
    }
}

/// The closed ports among the outcomes for `a`, in stream order.
pub open spec fn closed_ports_for(os: Seq<PortOutcome>, a: int) -> Seq<u16>
    decreases os.len(),
{
    if os.len() == 0 {
        Seq::empty()
    } else {
        let rest = closed_ports_for(os.drop_first(), a);
        if os[0].addr == a && !os[0].is_open {
            seq![os[0].port] + rest
        } else {
            rest
        }
    }
}

/// What folding a stream leaves at address `a`: nothing when `a` had no
/// slot content and no outcomes; otherwise its collected open and closed
/// ports, appended to whatever the slot already held.
pub proof fn lemma_fold_model_at(
    m: Seq<Option<(Seq<u16>, Seq<u16>)>>,
    os: Seq<PortOutcome>,
    a: int,
)
    requires
        0 <= a < m.len(),
    ensures
        m[a] is None && ports_for(os, a).len() == 0 ==> fold_model(m, os)[a] is None,
        m[a] is None && ports_for(os, a).len() > 0 ==> fold_model(m, os)[a] == Some(
            (open_ports_for(os, a), closed_ports_for(os, a)),
        ),
        m[a] matches Some(p) ==> fold_model(m, os)[a] == Some(
            (p.0 + open_ports_for(os, a), p.1 + closed_ports_for(os, a)),
        ),
    decreases os.len(),
{
    if os.len() == 0 {
        if m[a] is Some {
            let p = m[a]->Some_0;
            assert(p.0 + open_ports_for(os, a) =~= p.0);
            assert(p.1 + closed_ports_for(os, a) =~= p.1);
        }
    } else {
        let o = os[0];
        let m1 = step_model(m, o);
        let rest = os.drop_first();
        lemma_fold_model_at(m1, rest, a);
        if o.addr != a {
            assert(m1[a] == m[a]);
        } else {
            if m[a] is None {
                if o.is_open {
                    assert(m1[a] == Some((seq![o.port], Seq::<u16>::empty()))) by {
                        assert(Seq::<u16>::empty().push(o.port) =~= seq![o.port]);
                    }
                    assert(seq![o.port] + open_ports_for(rest, a) =~= open_ports_for(os, a));
                    assert(Seq::<u16>::empty() + closed_ports_for(rest, a) =~= closed_ports_for(
                        os,
                        a,
                    ));
                } else {
                    assert(m1[a] == Some((Seq::<u16>::empty(), seq![o.port]))) by {
                        assert(Seq::<u16>::empty().push(o.port) =~= seq![o.port]);
                    }
                    assert(seq![o.port] + closed_ports_for(rest, a) =~= closed_ports_for(os, a));
                    assert(Seq::<u16>::empty() + open_ports_for(rest, a) =~= open_ports_for(
                        os,
                        a,
                    ));
                }
            } else {
                let p = m[a]->Some_0;
                if o.is_open {
                    assert(m1[a] == Some((p.0.push(o.port), p.1)));
                    assert(p.0.push(o.port) + open_ports_for(rest, a) =~= p.0 + open_ports_for(
                        os,
                        a,
                    ));
                    assert(p.1 + closed_ports_for(rest, a) =~= p.1 + closed_ports_for(os, a));
                } else {
                    assert(m1[a] == Some((p.0, p.1.push(o.port))));
                    assert(p.1.push(o.port) + closed_ports_for(rest, a) =~= p.1
                        + closed_ports_for(os, a));
                    assert(p.0 + open_ports_for(rest, a) =~= p.0 + open_ports_for(os, a));
                }
            }
        }
    }
}

/// The open and the closed collection together carry exactly the ports of
/// the outcomes for `a`, with multiplicity.
pub proof fn lemma_collectors_partition(os: Seq<PortOutcome>, a: int)
    ensures
        open_ports_for(os, a).to_multiset().add(closed_ports_for(os, a).to_multiset())
            == ports_for(os, a).to_multiset(),
    decreases os.len(),
{
    broadcast use vstd::seq_lib::group_to_multiset_ensures;
    if os.len() == 0 {
        assert(Seq::<u16>::empty().to_multiset() =~= Multiset::<u16>::empty());
        assert(Multiset::<u16>::empty().add(Multiset::<u16>::empty())
            =~= Multiset::<u16>::empty());
    } else {
        let o = os[0];
        let rest = os.drop_first();
        lemma_collectors_partition(rest, a);
        if o.addr == a {
            assert(seq![o.port] =~= Seq::<u16>::empty().push(o.port));
            assert(seq![o.port].to_multiset() =~= Multiset::<u16>::empty().insert(o.port));
            vstd::seq_lib::lemma_multiset_commutative(seq![o.port], ports_for(rest, a));
            if o.is_open {
                vstd::seq_lib::lemma_multiset_commutative(seq![o.port], open_ports_for(rest, a));
                assert(open_ports_for(os, a).to_multiset().add(
                    closed_ports_for(os, a).to_multiset(),
                ) =~= ports_for(os, a).to_multiset());
            } else {
                vstd::seq_lib::lemma_multiset_commutative(
                    seq![o.port],
                    closed_ports_for(rest, a),
                );
                assert(open_ports_for(os, a).to_multiset().add(
                    closed_ports_for(os, a).to_multiset(),
                ) =~= ports_for(os, a).to_multiset());
            }
        }
    }
}

/// Law: an address that never produced an outcome — its reachability
/// probe failed — is absent from the final mapping, not present with
/// empty lists.
pub proof fn lemma_unprobed_address_absent(
    m: Seq<Option<(Seq<u16>, Seq<u16>)>>,
    os: Seq<PortOutcome>,
    a: int,
)
    requires
        0 <= a < m.len(),
        m[a] is None,
        forall|i: int| 0 <= i < os.len() ==> (#[trigger] os[i]).addr != a,
    ensures
        fold_model(m, os)[a] is None,
{
    lemma_ports_for_absent(os, a);
    lemma_fold_model_at(m, os, a);
}

/// No outcomes for `a` means nothing collected for `a`.
proof fn lemma_ports_for_absent(os: Seq<PortOutcome>, a: int)
    requires
        forall|i: int| 0 <= i < os.len() ==> (#[trigger] os[i]).addr != a,
    ensures
        ports_for(os, a).len() == 0,
    decreases os.len(),
{
    if os.len() > 0 {
        assert(os[0].addr != a);
        let rest = os.drop_first();
        assert(forall|i: int| 0 <= i < rest.len() ==> (#[trigger] rest[i]).addr != a) by {
            assert(forall|i: int|
                0 <= i < rest.len() ==> rest[i] == os[i + 1]);
        }
        lemma_ports_for_absent(rest, a);
    }
}

/// Law: after a full sweep of address `a` — one outcome per entry of the
/// port set — every port of the set appears in exactly one of the two
/// final lists, never both and never neither; a port listed twice in the
/// set appears twice.
pub proof fn lemma_every_port_classified(
    m: Seq<Option<(Seq<u16>, Seq<u16>)>>,
    os: Seq<PortOutcome>,
    a: int,
    ports: Seq<u16>,
)
    requires
        0 <= a < m.len(),
        m[a] is None,
        ports_for(os, a) == ports,
        ports.len() > 0,
    ensures
        fold_model(m, os)[a] matches Some(p) && p.0.to_multiset().add(p.1.to_multiset())
            == ports.to_multiset(),
{
    lemma_fold_model_at(m, os, a);
    lemma_collectors_partition(os, a);
}

} // verus!
