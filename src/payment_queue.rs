//! Intercepted HTLCs, grouped by payment hash under one intercept SCID.

use vstd::prelude::*;

verus! {

/// An HTLC that the channel manager holds back, waiting for an instruction.
#[derive(Clone, Copy, Debug, PartialEq, Eq)]
pub struct InterceptedHTLC {
    /// The channel manager's handle on the held HTLC.
    pub intercept_id: [u8; 32],
    /// The amount that the payer expects to leave this node.
    pub expected_outbound_amount_msat: u64,
    /// The hash of the payment the HTLC belongs to.
    pub payment_hash: [u8; 32],
}

} // verus!

verus! {

/// The HTLCs of one payment, in the order they were intercepted.
#[derive(Debug)]
pub struct PaymentGroup {
    pub payment_hash: [u8; 32],
    pub htlcs: Vec<InterceptedHTLC>,
}

/// A payment as seen in contracts: its hash and its HTLCs.
pub type GroupView = ([u8; 32], Seq<InterceptedHTLC>);

/// The HTLCs intercepted under one SCID, grouped by payment hash. Groups keep
/// the order in which their first HTLC arrived.
#[derive(Debug)]
pub struct PaymentQueue {
    payments: Vec<PaymentGroup>,
}

/// The sum of the outbound amounts of some HTLCs.
pub open spec fn htlcs_total(htlcs: Seq<InterceptedHTLC>) -> int {
    crate::fee::sum_of(crate::fee::amounts_of(htlcs))
}

/// All HTLCs of all groups, groups in order and HTLCs in order within a group.
pub open spec fn flatten(gs: Seq<GroupView>) -> Seq<InterceptedHTLC>
    decreases gs.len(),
{
    if gs.len() == 0 {
        Seq::empty()
    } else {
        flatten(gs.drop_last()) + gs.last().1
    }
}

/// The index of the first group with the given hash, or the number of groups.
pub open spec fn find_hash(gs: Seq<GroupView>, hash: [u8; 32]) -> int
    decreases gs.len(),
{
    if gs.len() == 0 {
        0
    } else if gs[0].0 == hash {
        0
    } else {
        1 + find_hash(gs.drop_first(), hash)
    }
}

/// The index of the first group whose amounts sum (saturating at `u64::MAX`) to
/// more than `threshold`, or the number of groups.
pub open spec fn first_above(gs: Seq<GroupView>, threshold: int) -> int
    decreases gs.len(),
{
    if gs.len() == 0 {
        0
    } else if saturated(htlcs_total(gs[0].1)) > threshold {
        0
    } else {
        1 + first_above(gs.drop_first(), threshold)
    }
}

/// The groups after `htlc` is added: appended to the group of its hash, or as a
/// new last group.
pub open spec fn with_htlc(gs: Seq<GroupView>, htlc: InterceptedHTLC) -> Seq<GroupView> {
    let i = find_hash(gs, htlc.payment_hash);
    if i < gs.len() {
        gs.update(i, (gs[i].0, gs[i].1.push(htlc)))
    } else {
        gs.push((htlc.payment_hash, seq![htlc]))
    }
}

/// The smaller of a value and `u64::MAX`.
pub open spec fn saturated(x: int) -> int {
    if x > u64::MAX {
        u64::MAX as int
    } else {
        x
    }
}

/// The smaller of a count and `usize::MAX`.
pub open spec fn saturated_count(x: int) -> int {
    if x > usize::MAX {
        usize::MAX as int
    } else {
        x
    }
}

proof fn lemma_find_hash(gs: Seq<GroupView>, hash: [u8; 32], i: int)
    requires
        0 <= i <= gs.len(),
        forall|j: int| 0 <= j < i ==> (#[trigger] gs[j]).0 != hash,
        i == gs.len() || gs[i].0 == hash,
    ensures
        find_hash(gs, hash) == i,
    decreases i,
{
    if i > 0 {
        assert(gs[0].0 != hash);
        lemma_find_hash(gs.drop_first(), hash, i - 1);
    }
}

proof fn lemma_first_above(gs: Seq<GroupView>, threshold: int, i: int)
    requires
        0 <= i <= gs.len(),
        forall|j: int| 0 <= j < i ==> saturated(htlcs_total((#[trigger] gs[j]).1)) <= threshold,
        i == gs.len() || saturated(htlcs_total(gs[i].1)) > threshold,
    ensures
        first_above(gs, threshold) == i,
    decreases i,
{
    if i > 0 {
        assert(saturated(htlcs_total(gs[0].1)) <= threshold);
        lemma_first_above(gs.drop_first(), threshold, i - 1);
    }
}

proof fn lemma_total_push(s: Seq<InterceptedHTLC>, h: InterceptedHTLC)
    ensures
        htlcs_total(s.push(h)) == htlcs_total(s) + h.expected_outbound_amount_msat,
{
    assert(crate::fee::amounts_of(s.push(h)).drop_last() =~= crate::fee::amounts_of(s));
}

pub proof fn lemma_total_nonneg(s: Seq<InterceptedHTLC>)
    ensures
        htlcs_total(s) >= 0,
    decreases s.len(),
{
    if s.len() > 0 {
        lemma_total_push(s.drop_last(), s.last());
        assert(s.drop_last().push(s.last()) =~= s);
        lemma_total_nonneg(s.drop_last());
    }
}

/// The total of a single HTLC is its amount.
pub proof fn lemma_total_single(s: Seq<InterceptedHTLC>)
    requires
        s.len() == 1,
    ensures
        htlcs_total(s) == s[0].expected_outbound_amount_msat,
{
    lemma_total_push(Seq::empty(), s[0]);
    assert(Seq::<InterceptedHTLC>::empty().push(s[0]) =~= s);
    assert(crate::fee::amounts_of(Seq::<InterceptedHTLC>::empty()) =~= Seq::<int>::empty());
}

impl PaymentQueue {
    /// The groups, in order.
    pub closed spec fn groups(&self) -> Seq<GroupView> {
        self.payments@.map_values(|g: PaymentGroup| (g.payment_hash, g.htlcs@))
    }

    /// Every group is non-empty and holds HTLCs of its own hash only, and no two
    /// groups share a hash.
    pub closed spec fn wf(&self) -> bool {
        let gs = self.groups();
        &&& forall|i: int| 0 <= i < gs.len() ==> (#[trigger] gs[i]).1.len() > 0
        &&& forall|i: int, k: int|
            0 <= i < gs.len() && 0 <= k < gs[i].1.len() ==> (#[trigger] gs[i].1[k]).payment_hash
                == gs[i].0
        &&& forall|i: int, j: int|
            0 <= i < j < gs.len() ==> (#[trigger] gs[i]).0 != (#[trigger] gs[j]).0
    }

    /// An empty queue.
    pub fn new() -> (r: Self)
        ensures
            r.groups().len() == 0,
            r.wf(),
    {
        PaymentQueue { payments: Vec::new() }
    }

    /// Adds `htlc` to the group of its payment hash, or starts a new group, and
    /// returns the total amount (saturated at `u64::MAX`) and the number of HTLCs
    /// over all groups.
    pub fn add_htlc(&mut self, htlc: InterceptedHTLC) -> (r: (u64, usize))
        requires
            old(self).wf(),
        ensures
            final(self).wf(),
            final(self).groups() == with_htlc(old(self).groups(), htlc),
            r.0 == saturated(htlcs_total(flatten(final(self).groups()))),
            r.1 == saturated_count(flatten(final(self).groups()).len() as int),
    {
        let ghost gs = self.groups();
        let n = self.payments.len();
        let mut i: usize = 0;
        while i < n && !bytes_eq(&self.payments[i].payment_hash, &htlc.payment_hash)
            invariant
                0 <= i <= n == self.payments@.len(),
                gs == self.groups(),
                forall|j: int| 0 <= j < i ==> (#[trigger] gs[j]).0 != htlc.payment_hash,
            decreases n - i,
        {
            i = i + 1;
        }
        proof {
            lemma_find_hash(gs, htlc.payment_hash, i as int);
        }
        if i < n {
            let mut group = self.payments.remove(i);
            group.htlcs.push(htlc);
            self.payments.insert(i, group);
            proof {
                assert(self.groups() =~= with_htlc(gs, htlc));
            }
        } else {
            let mut htlcs: Vec<InterceptedHTLC> = Vec::new();
            htlcs.push(htlc);
            self.payments.push(PaymentGroup { payment_hash: htlc.payment_hash, htlcs });
            proof {
                assert(self.groups() =~= with_htlc(gs, htlc));
            }
        }
        proof {
            let ngs = self.groups();
            assert forall|a: int, k: int|
                0 <= a < ngs.len() && 0 <= k < ngs[a].1.len() implies (#[trigger] ngs[a].1[k]).payment_hash
                == ngs[a].0 by {
                if a != i {
                    assert(ngs[a] == gs[a]);
                } else if a < gs.len() && k < gs[a].1.len() {
                    assert(ngs[a].1[k] == gs[a].1[k]);
                }
            }
            assert forall|a: int| 0 <= a < ngs.len() implies (#[trigger] ngs[a]).1.len() > 0 by {
                if a != i {
                    assert(ngs[a] == gs[a]);
                }
            }
            assert forall|a: int, b: int| 0 <= a < b < ngs.len() implies (#[trigger] ngs[a]).0
                != (#[trigger] ngs[b]).0 by {
                if a != i {
                    assert(ngs[a] == gs[a]);
                }
                if b != i {
                    assert(ngs[b] == gs[b]);
                }
            }
        }
        self.totals()
    }

    /// Removes and returns the first group whose amounts sum (saturating at
    /// `u64::MAX`) to more than `threshold_msat`; leaves the queue as it is when there is none.
    pub fn pop_greater_than_msat(&mut self, threshold_msat: u64) -> (r: Option<([u8; 32], Vec<InterceptedHTLC>)>)
        requires
            old(self).wf(),
        ensures
            final(self).wf(),
            ({
                let gs = old(self).groups();
                let i = first_above(gs, threshold_msat as int);
                if i < gs.len() {
                    &&& r matches Some((hash, htlcs))
                    &&& hash == gs[i].0
                    &&& htlcs@ == gs[i].1
                    &&& final(self).groups() == gs.remove(i)
                } else {
                    &&& r is None
                    &&& final(self).groups() == gs
                }
            }),
    {
        let ghost gs = self.groups();
        let n = self.payments.len();
        let mut i: usize = 0;
        while i < n && !(self.group_total(i) > threshold_msat)
            invariant
                0 <= i <= n == self.payments@.len(),
                gs == self.groups(),
                forall|j: int| 0 <= j < i ==> saturated(htlcs_total((#[trigger] gs[j]).1)) <= threshold_msat,
            decreases n - i,
        {
            i = i + 1;
        }
        proof {
            lemma_first_above(gs, threshold_msat as int, i as int);
        }
        if i < n {
            let group = self.payments.remove(i);
            proof {
                assert(self.groups() =~= gs.remove(i as int));
                let ngs = self.groups();
                assert forall|a: int| 0 <= a < ngs.len() implies (#[trigger] ngs[a]) == gs[if a < i {
                    a
                } else {
                    a + 1
                }] by {}
                assert forall|a: int, b: int| 0 <= a < b < ngs.len() implies (#[trigger] ngs[a]).0
                    != (#[trigger] ngs[b]).0 by {
                    assert(ngs[a] == gs[if a < i { a } else { a + 1 }]);
                    assert(ngs[b] == gs[if b < i { b } else { b + 1 }]);
                }
                assert forall|a: int, k: int|
                    0 <= a < ngs.len() && 0 <= k < ngs[a].1.len() implies (#[trigger] ngs[a].1[k]).payment_hash
                    == ngs[a].0 by {
                    assert(ngs[a] == gs[if a < i { a } else { a + 1 }]);
                }
            }
            Some((group.payment_hash, group.htlcs))
        } else {
            None
        }
    }

    /// Removes every HTLC and returns them, groups in order and HTLCs in order
    /// within a group.
    pub fn clear(&mut self) -> (r: Vec<InterceptedHTLC>)
        requires
            old(self).wf(),
        ensures
            final(self).wf(),
            final(self).groups().len() == 0,
            r@ == flatten(old(self).groups()),
    {
        let ghost gs = self.groups();
        let mut out: Vec<InterceptedHTLC> = Vec::new();
        let mut g: usize = 0;
        while g < self.payments.len()
            invariant
                0 <= g <= self.payments@.len(),
                gs == self.groups(),
                out@ == flatten(gs.take(g as int)),
            decreases self.payments@.len() - g,
        {
            let htlcs = &self.payments[g].htlcs;
            let ghost before = out@;
            proof {
                assert(gs.take(g + 1).drop_last() =~= gs.take(g as int));
            }
            let mut k: usize = 0;
            while k < htlcs.len()
                invariant
                    0 <= k <= htlcs@.len(),
                    g < gs.len(),
                    htlcs@ == gs[g as int].1,
                    out@ == before + htlcs@.take(k as int),
                decreases htlcs@.len() - k,
            {
                out.push(htlcs[k]);
                proof {
                    assert(out@ =~= before + htlcs@.take(k + 1));
                }
                k = k + 1;
            }
            proof {
                assert(htlcs@.take(k as int) =~= htlcs@);
            }
            g = g + 1;
        }
        proof {
            assert(gs.take(g as int) =~= gs);
        }
        self.payments = Vec::new();
        proof {
            assert(self.groups() =~= Seq::<GroupView>::empty());
        }
        out
    }

    /// The sum of the amounts of group `i`, saturated at `u64::MAX`.
    fn group_total(&self, i: usize) -> (r: u64)
        requires
            i < self.groups().len(),
        ensures
            r == saturated(htlcs_total(self.groups()[i as int].1)),
    {
        let htlcs = &self.payments[i].htlcs;
        let mut total: u64 = 0;
        let mut k: usize = 0;
        while k < htlcs.len()
            invariant
                0 <= k <= htlcs@.len(),
                total == saturated(htlcs_total(htlcs@.take(k as int))),
            decreases htlcs@.len() - k,
        {
            proof {
                assert(htlcs@.take(k as int).push(htlcs@[k as int]) =~= htlcs@.take(k + 1));
                lemma_total_push(htlcs@.take(k as int), htlcs@[k as int]);
                lemma_total_nonneg(htlcs@.take(k as int));
            }
            total = total.saturating_add(htlcs[k].expected_outbound_amount_msat);
            k = k + 1;
        }
        proof {
            assert(htlcs@.take(k as int) =~= htlcs@);
        }
        total
    }

    /// The total amount (saturated at `u64::MAX`) and number of all HTLCs.
    fn totals(&self) -> (r: (u64, usize))
        ensures
            r.0 == saturated(htlcs_total(flatten(self.groups()))),
            r.1 == saturated_count(flatten(self.groups()).len() as int),
    {
        let ghost gs = self.groups();
        let mut total: u64 = 0;
        let mut count: usize = 0;
        let mut g: usize = 0;
        while g < self.payments.len()
            invariant
                0 <= g <= self.payments@.len(),
                gs == self.groups(),
                total == saturated(htlcs_total(flatten(gs.take(g as int)))),
                count == saturated_count(flatten(gs.take(g as int)).len() as int),
            decreases self.payments@.len() - g,
        {
            let htlcs = &self.payments[g].htlcs;
            let ghost before = flatten(gs.take(g as int));
            proof {
                assert(gs.take(g + 1).drop_last() =~= gs.take(g as int));
                lemma_total_nonneg(before);
            }
            let mut k: usize = 0;
            while k < htlcs.len()
                invariant
                    0 <= k <= htlcs@.len(),
                    g < gs.len(),
                    htlcs@ == gs[g as int].1,
                    before == flatten(gs.take(g as int)),
                    htlcs_total(before) >= 0,
                    total == saturated(htlcs_total(before + htlcs@.take(k as int))),
                    count == saturated_count(before.len() + k),
                decreases htlcs@.len() - k,
            {
                proof {
                    assert((before + htlcs@.take(k as int)).push(htlcs@[k as int]) =~= before
                        + htlcs@.take(k + 1));
                    lemma_total_push(before + htlcs@.take(k as int), htlcs@[k as int]);
                }
                total = total.saturating_add(htlcs[k].expected_outbound_amount_msat);
                count = count.saturating_add(1);
                k = k + 1;
            }
            proof {
                assert(htlcs@.take(k as int) =~= htlcs@);
            }
            g = g + 1;
        }
        proof {
            assert(gs.take(g as int) =~= gs);
        }
        (total, count)
    }
}

/// Whether two byte strings of one length are equal.
pub fn bytes_eq<const N: usize>(a: &[u8; N], b: &[u8; N]) -> (r: bool)
    ensures
        r == (*a == *b),
{
    let mut i: usize = 0;
    while i < N
        invariant
            0 <= i <= N,
            forall|j: int| 0 <= j < i ==> a[j] == b[j],
        decreases N - i,
    {
        if a[i] != b[i] {
            return false;
        }
        i = i + 1;
    }
    proof {
        assert(*a =~= *b);
    }
    true
}

} // verus!
