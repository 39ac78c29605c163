//! Pedersen decentralized verifiable secret sharing, after "Non-interactive and
//! information-theoretic secure verifiable secret sharing", section 5.
//!
//! Each of n participants deals its own secret with Pedersen VSS. The joint secret is the
//! sum of those secrets, and each participant's share of it is the sum of the shares that it
//! received, its own included. All participants are assumed to take part to the end.

use crate::field::{q, scalar_add, scalar_from_u64, Scalar};
use crate::group::{point_add, point_identity, Point};
use crate::pedersen_vss::{commit_log, is_dealing, lemma_commitment_homomorphic, share_verifies, PedersenVSS};
use crate::polynomial::{lemma_poly_sum_add, lemma_poly_sum_zeros, poly_eval, poly_sum};
use vstd::arithmetic::div_mod::lemma_add_mod_noop;
use std::collections::HashMap;
use vstd::prelude::*;

verus! {

broadcast use vstd::std_specs::hash::group_hash_axioms;

/// Why a step of the protocol did not go through.
#[derive(Clone, Copy, Debug, PartialEq, Eq)]
pub enum DvssError {
    /// A received share does not agree with its sender's commitments.
    ShareRejected,
    /// The aggregated share does not agree with the aggregated commitments.
    AggregationSelfCheckFailed,
}

/// The mathematical state of a participant.
pub struct ParticipantView {
    pub id: nat,
    pub secret: Scalar,
    pub comm_coeffs: Seq<Point>,
    pub s_shares: Map<usize, Scalar>,
    pub t_shares: Map<usize, Scalar>,
    pub peer_comm_coeffs: Map<usize, Seq<Point>>,
    pub peer_shares: Map<usize, (Scalar, Scalar)>,
    pub final_comm_coeffs: Seq<Point>,
    pub secret_share: Scalar,
}

impl ParticipantView {
    /// The state after a share from `sender` was accepted.
    pub open spec fn receive(self, sender: usize, comm: Seq<Point>, share: (Scalar, Scalar)) -> Self {
        ParticipantView {
            peer_comm_coeffs: self.peer_comm_coeffs.insert(sender, comm),
            peer_shares: self.peer_shares.insert(sender, share),
            ..self
        }
    }

    /// The state once the aggregated commitments `fc` and share `share` are stored.
    pub open spec fn finalized(self, fc: Seq<Point>, share: Scalar) -> Self {
        ParticipantView { final_comm_coeffs: fc, secret_share: share, ..self }
    }

    /// The share pair that participant `p` contributes to this participant.
    pub open spec fn contribution(self, p: nat) -> (Scalar, Scalar) {
        if p == self.id {
            (self.s_shares[p as usize], self.t_shares[p as usize])
        } else {
            self.peer_shares[p as usize]
        }
    }

    /// The commitment vector of participant `p`.
    pub open spec fn commitments_of(self, p: nat) -> Seq<Point> {
        if p == self.id {
            self.comm_coeffs
        } else {
            self.peer_comm_coeffs[p as usize]
        }
    }

    /// The sum in F_q of the secret shares contributed by participants `1..=m`.
    pub open spec fn s_sum(self, m: nat) -> int
        decreases m,
    {
        if m == 0 {
            0
        } else {
            (self.s_sum((m - 1) as nat) + self.contribution(m).0.val()) % q()
        }
    }

    /// The sum in F_q of the blinding shares contributed by participants `1..=m`.
    pub open spec fn t_sum(self, m: nat) -> int
        decreases m,
    {
        if m == 0 {
            0
        } else {
            (self.t_sum((m - 1) as nat) + self.contribution(m).1.val()) % q()
        }
    }

    /// The logarithm of the sum of the `j`-th commitments of participants `1..=m`.
    pub open spec fn comm_sum(self, j: int, m: nat) -> int
        decreases m,
    {
        if m == 0 {
            0
        } else {
            (self.comm_sum(j, (m - 1) as nat) + self.commitments_of(m)[j].log()) % q()
        }
    }

    /// `fc` holds the `threshold` aggregated commitments over `total` participants.
    pub open spec fn aggregates(self, fc: Seq<Point>, threshold: nat, total: nat) -> bool {
        &&& fc.len() == threshold
        &&& forall|j: int| 0 <= j < threshold ==> #[trigger] fc[j].log() == self.comm_sum(j, total)
    }
}

/// `a` and `b` hold the same own dealing.
pub open spec fn same_dealing(a: ParticipantView, b: ParticipantView) -> bool {
    &&& a.id == b.id
    &&& a.secret == b.secret
    &&& a.comm_coeffs == b.comm_coeffs
    &&& a.s_shares == b.s_shares
    &&& a.t_shares == b.t_shares
}

/// The own secret, commitments and share sets of `v` form a dealing with threshold `k`
/// over `n` participants.
pub open spec fn dealt_by(v: ParticipantView, k: nat, n: nat, g: Point, h: Point) -> bool {
    exists|t: int|
        #![trigger is_dealing(v.secret.val(), t, v.comm_coeffs, v.s_shares, v.t_shares, k, n, g, h)]
        is_dealing(v.secret.val(), t, v.comm_coeffs, v.s_shares, v.t_shares, k, n, g, h)
}

/// Every share of the own dealing agrees with the own commitments.
pub open spec fn deals_verifiable(v: ParticipantView, k: nat, n: nat, g: Point, h: Point) -> bool {
    forall|i: usize|
        1 <= i <= n ==> share_verifies(k, i as int, #[trigger] v.s_shares[i].val(), v.t_shares[i].val(), v.comm_coeffs, g, h)
}

/// In `ps`, every peer share that participant `m` holds is the one that the dealing of
/// participant `p` in `dealt` assigned to it, with that dealing's commitments.
pub open spec fn holds_dealt_shares(ps: Seq<ParticipantView>, dealt: Seq<ParticipantView>) -> bool {
    forall|m: int, p: usize|
        0 <= m < ps.len() && #[trigger] ps[m].peer_shares.contains_key(p) ==> {
            &&& 1 <= p <= dealt.len()
            &&& ps[m].peer_shares[p] == (
                dealt[p - 1].s_shares[(m + 1) as usize],
                dealt[p - 1].t_shares[(m + 1) as usize],
            )
            &&& ps[m].peer_comm_coeffs[p] == dealt[p - 1].comm_coeffs
        }
}

/// The logarithm of the sum of the `j`-th own commitments of participants `1..=m` of `ps`.
pub open spec fn joint_comm_sum(ps: Seq<ParticipantView>, j: int, m: nat) -> int
    decreases m,
{
    if m == 0 {
        0
    } else {
        (joint_comm_sum(ps, j, (m - 1) as nat) + ps[m - 1].comm_coeffs[j].log()) % q()
    }
}

/// A participant that holds every peer's dealt commitments sums the same commitments as
/// every other such participant.
proof fn lemma_comm_sum_is_joint(ps: Seq<ParticipantView>, i: int, j: int, m: nat)
    requires
        0 <= i < ps.len(),
        m <= ps.len() <= usize::MAX,
        ps[i].id == i + 1,
        holds_dealt_shares(ps, ps),
        forall|p: usize| 1 <= p <= ps.len() && p != i + 1 ==> #[trigger] ps[i].peer_shares.contains_key(p),
    ensures
        ps[i].comm_sum(j, m) == joint_comm_sum(ps, j, m),
    decreases m,
{
    if m > 0 {
        lemma_comm_sum_is_joint(ps, i, j, (m - 1) as nat);
        if m != i + 1 {
            let p = m as usize;
            assert(ps[i].peer_shares.contains_key(p));
            assert(ps[i].peer_comm_coeffs[p] == ps[p - 1].comm_coeffs);
        }
    }
}

/// The views of a sequence of participants.
pub open spec fn views(ps: Seq<PedersenDVSSParticipant>) -> Seq<ParticipantView> {
    ps.map_values(|p: PedersenDVSSParticipant| p@)
}

/// A copy of a vector of points.
fn copy_points(v: &Vec<Point>) -> (r: Vec<Point>)
    ensures
        r@ == v@,
{
    let mut r: Vec<Point> = Vec::new();
    let mut i: usize = 0;
    while i < v.len()
        invariant
            i <= v@.len(),
            r@ == v@.take(i as int),
        decreases v@.len() - i,
    {
        r.push(v[i].duplicate());
        proof {
            assert(r@ =~= v@.take(i + 1));
        }
        i = i + 1;
    }
    proof {
        assert(v@.take(i as int) =~= v@);
    }
    r
}

/// Create participants that take part in a decentralized secret sharing and perform the
/// secret sharing: each deals, each receives every other's share of its dealing, and each
/// aggregates.
pub fn share_secret_for_testing(threshold: usize, total: usize, g: &Point, h: &Point) -> (r: Vec<
    PedersenDVSSParticipant,
>)
    requires
        1 <= threshold <= total <= i64::MAX,
    ensures
        ({
            let ps = views(r@);
            &&& ps.len() == total
            &&& forall|m: int| 0 <= m < total ==> (#[trigger] r@[m]).inv(threshold as nat, total as nat, *g, *h)
            &&& forall|m: int| 0 <= m < total ==> (#[trigger] ps[m]).id == m + 1
            &&& forall|m: int, p: usize|
                0 <= m < total ==> (#[trigger] ps[m].peer_shares.contains_key(p) <==> (1 <= p <= total && p != m + 1))
            &&& holds_dealt_shares(ps, ps)
            &&& forall|m: int| 0 <= m < total ==> (#[trigger] ps[m]).secret_share.val() == ps[m].s_sum(total as nat)
            &&& forall|m: int| 0 <= m < total ==> dealt_by(#[trigger] ps[m], threshold as nat, total as nat, *g, *h)
            &&& forall|m: int|
                0 <= m < total ==> (#[trigger] ps[m]).aggregates(ps[m].final_comm_coeffs, threshold as nat, total as nat)
            &&& forall|m: int, j: int|
                0 <= m < total && 0 <= j < threshold ==> #[trigger] ps[m].comm_sum(j, total as nat)
                    == joint_comm_sum(ps, j, total as nat)
        }),
{
    let mut participants: Vec<PedersenDVSSParticipant> = Vec::new();
    // Each participant generates a new secret and verifiable shares of that secret for everyone.
    let mut i: usize = 0;
    while i < total
        invariant
            i <= total,
            1 <= threshold <= total <= i64::MAX,
            participants@.len() == i,
            forall|m: int| 0 <= m < i ==> (#[trigger] participants@[m]).inv(threshold as nat, total as nat, *g, *h),
            forall|m: int| 0 <= m < i ==> (#[trigger] participants@[m])@.id == m + 1,
            forall|m: int| 0 <= m < i ==> (#[trigger] participants@[m])@.peer_shares.is_empty(),
            forall|m: int| 0 <= m < i ==> deals_verifiable(#[trigger] views(participants@)[m], threshold as nat, total as nat, *g, *h),
            forall|m: int| 0 <= m < i ==> dealt_by(#[trigger] views(participants@)[m], threshold as nat, total as nat, *g, *h),
        decreases total - i,
    {
        let ghost before = participants@;
        participants.push(PedersenDVSSParticipant::new(i + 1, threshold, total, g, h));
        proof {
            assert forall|m: int| 0 <= m < i + 1 implies deals_verifiable(#[trigger] views(participants@)[m], threshold as nat, total as nat, *g, *h)
                && dealt_by(views(participants@)[m], threshold as nat, total as nat, *g, *h) by {
                assert(views(participants@)[m] == participants@[m]@);
                if m < i {
                    assert(views(before)[m] == before[m]@);
                    assert(participants@[m] == before[m]);
                }
            }
        }
        i = i + 1;
    }
    let ghost dealt = views(participants@);
    // Every participant gives shares of its secret to others
    let mut i: usize = 0;
    while i < total
        invariant
            i <= total,
            1 <= threshold <= total <= i64::MAX,
            dealt.len() == total,
            participants@.len() == total,
            forall|m: int| 0 <= m < total ==> (#[trigger] participants@[m]).inv(threshold as nat, total as nat, *g, *h),
            forall|m: int| 0 <= m < total ==> same_dealing(#[trigger] views(participants@)[m], dealt[m]),
            forall|m: int| 0 <= m < total ==> (#[trigger] dealt[m]).id == m + 1,
            forall|m: int| 0 <= m < total ==> deals_verifiable(#[trigger] dealt[m], threshold as nat, total as nat, *g, *h),
            forall|m: int| 0 <= m < total ==> dealt_by(#[trigger] dealt[m], threshold as nat, total as nat, *g, *h),
            forall|m: int, p: usize|
                0 <= m < i ==> (#[trigger] views(participants@)[m].peer_shares.contains_key(p) <==> (1 <= p <= total && p != m + 1)),
            forall|m: int| i <= m < total ==> (#[trigger] views(participants@)[m]).peer_shares.is_empty(),
            holds_dealt_shares(views(participants@), dealt),
        decreases total - i,
    {
        let mut j: usize = 0;
        while j < total
            invariant
                i < total,
                j <= total,
                1 <= threshold <= total <= i64::MAX,
                dealt.len() == total,
                participants@.len() == total,
                forall|m: int| 0 <= m < total ==> (#[trigger] participants@[m]).inv(threshold as nat, total as nat, *g, *h),
                forall|m: int| 0 <= m < total ==> same_dealing(#[trigger] views(participants@)[m], dealt[m]),
                forall|m: int| 0 <= m < total ==> (#[trigger] dealt[m]).id == m + 1,
                forall|m: int| 0 <= m < total ==> deals_verifiable(#[trigger] dealt[m], threshold as nat, total as nat, *g, *h),
                forall|m: int| 0 <= m < total ==> dealt_by(#[trigger] dealt[m], threshold as nat, total as nat, *g, *h),
            forall|m: int| 0 <= m < total ==> dealt_by(#[trigger] dealt[m], threshold as nat, total as nat, *g, *h),
                forall|m: int, p: usize|
                    0 <= m < i ==> (#[trigger] views(participants@)[m].peer_shares.contains_key(p) <==> (1 <= p <= total && p != m + 1)),
                forall|p: usize|
                    #[trigger] views(participants@)[i as int].peer_shares.contains_key(p) <==> (1 <= p <= j && p != i + 1),
                forall|m: int| i < m < total ==> (#[trigger] views(participants@)[m]).peer_shares.is_empty(),
                holds_dealt_shares(views(participants@), dealt),
            decreases total - j,
        {
            if i != j {
                let ghost before = views(participants@);
                assert(same_dealing(before[j as int], dealt[j as int]));
                let id = participants[j].id;
                let comm = copy_points(&participants[j].comm_coeffs);
                assert(before[j as int].s_shares.contains_key((i + 1) as usize));
                assert(before[j as int].t_shares.contains_key((i + 1) as usize));
                let mut s = scalar_from_u64(0);
                let mut t = scalar_from_u64(0);
                match participants[j].s_shares.get(&(i + 1)) {
                    Some(x) => { s = *x; },
                    None => {},
                }
                match participants[j].t_shares.get(&(i + 1)) {
                    Some(x) => { t = *x; },
                    None => {},
                }
                assert(before[j as int] == participants@[j as int]@);
                assert(before[i as int] == participants@[i as int]@);
                assert(id == j + 1);
                assert(!before[i as int].peer_shares.contains_key(id));
                assert(s == dealt[j as int].s_shares[(i + 1) as usize]);
                assert(t == dealt[j as int].t_shares[(i + 1) as usize]);
                let res = participants[i].received_share(id, comm, (s, t), threshold, total, g, h);
                proof {
                    assert(res is Ok);
                    let after = views(participants@);
                    assert forall|m: int| 0 <= m < total && m != i implies after[m] == before[m] by {
                        assert(after[m] == participants@[m]@);
                    }
                    assert(after[i as int] == participants@[i as int]@);
                    assert(after[i as int] == before[i as int].receive(id, dealt[j as int].comm_coeffs, (s, t)));
                    assert forall|m: int, p: usize|
                        0 <= m < after.len() && #[trigger] after[m].peer_shares.contains_key(p) implies {
                            &&& 1 <= p <= dealt.len()
                            &&& after[m].peer_shares[p] == (
                                dealt[p - 1].s_shares[(m + 1) as usize],
                                dealt[p - 1].t_shares[(m + 1) as usize],
                            )
                            &&& after[m].peer_comm_coeffs[p] == dealt[p - 1].comm_coeffs
                        } by {
                        if m != i || p != id {
                            assert(before[m].peer_shares.contains_key(p));
                        }
                    }
                }
            }
            j = j + 1;
        }
        i = i + 1;
    }
    // Every participant computes its share to the distributed secret.
    let mut i: usize = 0;
    while i < total
        invariant
            i <= total,
            1 <= threshold <= total <= i64::MAX,
            dealt.len() == total,
            participants@.len() == total,
            forall|m: int| 0 <= m < total ==> (#[trigger] participants@[m]).inv(threshold as nat, total as nat, *g, *h),
            forall|m: int| 0 <= m < total ==> same_dealing(#[trigger] views(participants@)[m], dealt[m]),
            forall|m: int| 0 <= m < total ==> (#[trigger] dealt[m]).id == m + 1,
            forall|m: int| 0 <= m < total ==> deals_verifiable(#[trigger] dealt[m], threshold as nat, total as nat, *g, *h),
            forall|m: int| 0 <= m < total ==> dealt_by(#[trigger] dealt[m], threshold as nat, total as nat, *g, *h),
            forall|m: int, p: usize|
                0 <= m < total ==> (#[trigger] views(participants@)[m].peer_shares.contains_key(p) <==> (1 <= p <= total && p != m + 1)),
            holds_dealt_shares(views(participants@), dealt),
            forall|m: int| 0 <= m < i ==> (#[trigger] views(participants@)[m]).secret_share.val() == views(participants@)[m].s_sum(total as nat),
            forall|m: int|
                0 <= m < i ==> (#[trigger] views(participants@)[m]).aggregates(views(participants@)[m].final_comm_coeffs, threshold as nat, total as nat),
        decreases total - i,
    {
        let ghost before = views(participants@);
        assert(before[i as int] == participants@[i as int]@);
        assert(same_dealing(before[i as int], dealt[i as int]));
        let res = participants[i].compute_final_comm_coeffs_and_shares(threshold, total, g, h);
        proof {
            assert(res is Ok);
            let after = views(participants@);
            assert forall|m: int| 0 <= m < total && m != i implies after[m] == before[m] by {
                assert(after[m] == participants@[m]@);
            }
            assert(after[i as int] == participants@[i as int]@);
            assert(after[i as int].peer_shares == before[i as int].peer_shares);
            assert(after[i as int].peer_comm_coeffs == before[i as int].peer_comm_coeffs);
            assert forall|m: int, p: usize|
                0 <= m < after.len() && #[trigger] after[m].peer_shares.contains_key(p) implies {
                    &&& 1 <= p <= dealt.len()
                    &&& after[m].peer_shares[p] == (
                        dealt[p - 1].s_shares[(m + 1) as usize],
                        dealt[p - 1].t_shares[(m + 1) as usize],
                    )
                    &&& after[m].peer_comm_coeffs[p] == dealt[p - 1].comm_coeffs
                } by {
                assert(before[m].peer_shares.contains_key(p));
            }
            assert(after[i as int].s_sum(total as nat) == before[i as int].s_sum(total as nat)) by {
                lemma_s_sum_final_fields(before[i as int], after[i as int], total as nat);
            }
            assert forall|j: int| 0 <= j < threshold implies #[trigger] after[i as int].comm_sum(j, total as nat)
                == before[i as int].comm_sum(j, total as nat) by {
                lemma_comm_sum_final_fields(before[i as int], after[i as int], j, total as nat);
            }
        }
        i = i + 1;
    }
    proof {
        let ps = views(participants@);
        assert forall|m: int, p: usize|
            0 <= m < ps.len() && #[trigger] ps[m].peer_shares.contains_key(p) implies {
                &&& 1 <= p <= ps.len()
                &&& ps[m].peer_shares[p] == (
                    ps[p - 1].s_shares[(m + 1) as usize],
                    ps[p - 1].t_shares[(m + 1) as usize],
                )
                &&& ps[m].peer_comm_coeffs[p] == ps[p - 1].comm_coeffs
            } by {
            assert(same_dealing(ps[p - 1], dealt[p - 1]));
        }
        assert forall|m: int, j: int| 0 <= m < total && 0 <= j < threshold implies #[trigger] ps[m].comm_sum(j, total as nat)
            == joint_comm_sum(ps, j, total as nat) by {
            lemma_comm_sum_is_joint(ps, m, j, total as nat);
        }
        assert forall|m: int| 0 <= m < total implies dealt_by(#[trigger] ps[m], threshold as nat, total as nat, *g, *h) by {
            assert(same_dealing(ps[m], dealt[m]));
            assert(dealt_by(dealt[m], threshold as nat, total as nat, *g, *h));
        }
    }
    participants
}

/// The logarithms of the first `k` aggregated commitments over participants `1..=m`.
pub open spec fn aggregate_logs(v: ParticipantView, k: nat, m: nat) -> Seq<int> {
    Seq::new(k, |j: int| v.comm_sum(j, m))
}

/// Every participant `1..=n` contributes a share pair that agrees with its commitments.
pub open spec fn contributions_verify(v: ParticipantView, k: nat, n: nat, g: Point, h: Point) -> bool {
    forall|p: nat|
        1 <= p <= n ==> {
            &&& (#[trigger] v.commitments_of(p)).len() >= k
            &&& share_verifies(k, v.id as int, v.contribution(p).0.val(), v.contribution(p).1.val(), v.commitments_of(p), g, h)
        }
}

/// Aggregation is sound: when each contribution agrees with its dealer's commitments, the
/// summed share pair agrees with the summed commitments, because Pedersen commitments are
/// homomorphic.
pub proof fn lemma_aggregate_verifies(v: ParticipantView, k: nat, n: nat, m: nat, g: Point, h: Point)
    requires
        m <= n,
        contributions_verify(v, k, n, g, h),
    ensures
        poly_eval(aggregate_logs(v, k, m), v.id as int) == commit_log(g, h, v.s_sum(m), v.t_sum(m)),
    decreases m,
{
    let x = v.id as int;
    if m == 0 {
        lemma_poly_sum_zeros(aggregate_logs(v, k, 0), x);
        assert(0int % q() == 0);
        assert(g.log() * 0 + h.log() * 0 == 0) by (nonlinear_arith);
    } else {
        let prev = aggregate_logs(v, k, (m - 1) as nat);
        let cur = crate::group::logs(v.commitments_of(m).take(k as int));
        let agg = aggregate_logs(v, k, m);
        lemma_aggregate_verifies(v, k, n, (m - 1) as nat, g, h);
        assert(v.commitments_of(m).len() >= k);
        assert forall|j: int| 0 <= j < agg.len() implies #[trigger] agg[j] == (prev[j] + cur[j]) % q() by {
            assert(cur[j] == v.commitments_of(m)[j].log());
        }
        lemma_poly_sum_add(prev, cur, agg, x);
        lemma_add_mod_noop(poly_sum(prev, x), poly_sum(cur, x), q());
        let (s, t) = v.contribution(m);
        lemma_commitment_homomorphic(g, h, v.s_sum((m - 1) as nat), v.t_sum((m - 1) as nat), s.val(), t.val());
    }
}

/// The sum of secret shares does not depend on the aggregated fields.
proof fn lemma_s_sum_final_fields(a: ParticipantView, b: ParticipantView, m: nat)
    requires
        b == a.finalized(b.final_comm_coeffs, b.secret_share),
    ensures
        a.s_sum(m) == b.s_sum(m),
    decreases m,
{
    if m > 0 {
        lemma_s_sum_final_fields(a, b, (m - 1) as nat);
    }
}

/// The sums of commitments do not depend on the aggregated fields.
proof fn lemma_comm_sum_final_fields(a: ParticipantView, b: ParticipantView, j: int, m: nat)
    requires
        b == a.finalized(b.final_comm_coeffs, b.secret_share),
    ensures
        a.comm_sum(j, m) == b.comm_sum(j, m),
    decreases m,
{
    if m > 0 {
        lemma_comm_sum_final_fields(a, b, j, (m - 1) as nat);
    }
}

/// The order in which two peers' shares are accepted does not matter: the state is the
/// same either way, and so are the aggregated share sums and commitment sums that
/// `compute_final_comm_coeffs_and_shares` stores.
pub proof fn lemma_receipt_order_irrelevant(
    v: ParticipantView,
    a: usize,
    comm_a: Seq<Point>,
    share_a: (Scalar, Scalar),
    b: usize,
    comm_b: Seq<Point>,
    share_b: (Scalar, Scalar),
)
    requires
        a != b,
    ensures
        v.receive(a, comm_a, share_a).receive(b, comm_b, share_b) == v.receive(b, comm_b, share_b).receive(
            a,
            comm_a,
            share_a,
        ),
        ({
            let x = v.receive(a, comm_a, share_a).receive(b, comm_b, share_b);
            let y = v.receive(b, comm_b, share_b).receive(a, comm_a, share_a);
            &&& forall|m: nat| #[trigger] x.s_sum(m) == y.s_sum(m)
            &&& forall|m: nat| #[trigger] x.t_sum(m) == y.t_sum(m)
            &&& forall|j: int, m: nat| #[trigger] x.comm_sum(j, m) == y.comm_sum(j, m)
        }),
{
    let x = v.receive(a, comm_a, share_a).receive(b, comm_b, share_b);
    let y = v.receive(b, comm_b, share_b).receive(a, comm_a, share_a);
    assert(x.peer_comm_coeffs =~= y.peer_comm_coeffs);
    assert(x.peer_shares =~= y.peer_shares);
}

// Pedersen Decentralized Verifiable secret sharing: one participant's state.
pub struct PedersenDVSSParticipant {
    pub id: usize,
    pub secret: Scalar,
    pub comm_coeffs: Vec<Point>,
    pub s_shares: HashMap<usize, Scalar>,
    pub t_shares: HashMap<usize, Scalar>,
    all_comm_coeffs: HashMap<usize, Vec<Point>>,
    all_shares: HashMap<usize, (Scalar, Scalar)>,
    pub final_comm_coeffs: Vec<Point>,
    pub secret_share: Scalar,
}

impl View for PedersenDVSSParticipant {
    type V = ParticipantView;

    closed spec fn view(&self) -> ParticipantView {
        ParticipantView {
            id: self.id as nat,
            secret: self.secret,
            comm_coeffs: self.comm_coeffs@,
            s_shares: self.s_shares@,
            t_shares: self.t_shares@,
            peer_comm_coeffs: self.all_comm_coeffs@.map_values(|v: Vec<Point>| v@),
            peer_shares: self.all_shares@,
            final_comm_coeffs: self.final_comm_coeffs@,
            secret_share: self.secret_share,
        }
    }
}

impl PedersenDVSSParticipant {
    /// The state is one of a run with threshold `k`, `n` participants and generators `g`, `h`:
    /// the own dealing is in place, and every share held, its own included, is canonical and
    /// agrees with the commitments of the participant that dealt it.
    pub open spec fn inv(&self, k: nat, n: nat, g: Point, h: Point) -> bool {
        let v = self@;
        &&& share_verifies(k, v.id as int, v.s_shares[v.id as usize].val(), v.t_shares[v.id as usize].val(), v.comm_coeffs, g, h)
        &&& 1 <= k <= n <= i64::MAX
        &&& 1 <= v.id <= n
        &&& v.secret.wf()
        &&& v.secret_share.wf()
        &&& v.comm_coeffs.len() == k
        &&& forall|i: usize| #[trigger] v.s_shares.contains_key(i) <==> 1 <= i <= n
        &&& forall|i: usize| #[trigger] v.t_shares.contains_key(i) <==> 1 <= i <= n
        &&& forall|i: usize| #[trigger] v.s_shares.contains_key(i) ==> v.s_shares[i].wf() && v.t_shares[i].wf()
        &&& forall|p: usize| #[trigger] v.peer_shares.contains_key(p) <==> v.peer_comm_coeffs.contains_key(p)
        &&& forall|p: usize|
            #[trigger] v.peer_shares.contains_key(p) ==> {
                &&& 1 <= p <= n
                &&& p != v.id
                &&& v.peer_shares[p].0.wf()
                &&& v.peer_shares[p].1.wf()
                &&& v.peer_comm_coeffs[p].len() >= k
                &&& share_verifies(k, v.id as int, v.peer_shares[p].0.val(), v.peer_shares[p].1.val(), v.peer_comm_coeffs[p], g, h)
            }
    }

    /// Generates a new secret and verifiable shares of that secret for every participant
    pub fn new(id: usize, threshold: usize, total: usize, g: &Point, h: &Point) -> (r: Self)
        requires
            1 <= id <= total,
            1 <= threshold <= total <= i64::MAX,
        ensures
            r.inv(threshold as nat, total as nat, *g, *h),
            r@.id == id,
            exists|t: int|
                #![trigger is_dealing(r@.secret.val(), t, r@.comm_coeffs, r@.s_shares, r@.t_shares, threshold as nat, total as nat, *g, *h)]
                is_dealing(
                    r@.secret.val(),
                    t,
                    r@.comm_coeffs,
                    r@.s_shares,
                    r@.t_shares,
                    threshold as nat,
                    total as nat,
                    *g,
                    *h,
                ),
            deals_verifiable(r@, threshold as nat, total as nat, *g, *h),
            r@.peer_comm_coeffs.is_empty(),
            r@.peer_shares.is_empty(),
            r@.final_comm_coeffs.len() == 0,
            r@.secret_share.val() == 0,
    {
        let (secret, t, comm_coeffs, s_shares, t_shares) = PedersenVSS::deal(threshold, total, g, h);
        let r = PedersenDVSSParticipant {
            id,
            secret,
            comm_coeffs,
            s_shares,
            t_shares,
            all_comm_coeffs: HashMap::new(),
            all_shares: HashMap::new(),
            final_comm_coeffs: Vec::new(),
            secret_share: scalar_from_u64(0),
        };
        proof {
            assert(r@.peer_comm_coeffs =~= Map::empty());
            assert(r@.peer_shares =~= Map::empty());
            assert(is_dealing(r@.secret.val(), t.val(), r@.comm_coeffs, r@.s_shares, r@.t_shares, threshold as nat, total as nat, *g, *h));
        }
        r
    }

    /// Called by a participant when it receives a share from another participant with id `sender_id`
    pub fn received_share(
        &mut self,
        sender_id: usize,
        comm_coeffs: Vec<Point>,
        share: (Scalar, Scalar),
        threshold: usize,
        total: usize,
        g: &Point,
        h: &Point,
    ) -> (r: Result<(), DvssError>)
        requires
            old(self).inv(threshold as nat, total as nat, *g, *h),
            1 <= sender_id <= total,
            sender_id != old(self)@.id,
            !old(self)@.peer_shares.contains_key(sender_id),
            comm_coeffs@.len() >= threshold,
            share.0.wf(),
            share.1.wf(),
        ensures
            final(self).inv(threshold as nat, total as nat, *g, *h),
            r is Ok <==> share_verifies(
                threshold as nat,
                old(self)@.id as int,
                share.0.val(),
                share.1.val(),
                comm_coeffs@,
                *g,
                *h,
            ),
            r is Ok ==> final(self)@ == old(self)@.receive(sender_id, comm_coeffs@, share),
            r is Err ==> r == Err::<(), DvssError>(DvssError::ShareRejected) && final(self)@ == old(self)@,
    {
        // Verify received share
        if !PedersenVSS::verify_share(
            threshold,
            self.id,
            (&share.0, &share.1),
            &comm_coeffs,
            g,
            h,
        ) {
            return Err(DvssError::ShareRejected);
        }
        let ghost v = self@;
        let ghost c = comm_coeffs@;
        self.all_comm_coeffs.insert(sender_id, comm_coeffs);
        self.all_shares.insert(sender_id, share);
        proof {
            assert(self@.peer_comm_coeffs =~= v.peer_comm_coeffs.insert(sender_id, c));
            assert(self@ == v.receive(sender_id, c, share));
        }
        Ok(())
    }

    /// Called by a participant when it has received shares from all participants. Computes the final
    /// share of the distributed secret
    pub fn compute_final_comm_coeffs_and_shares(
        &mut self,
        threshold: usize,
        total: usize,
        g: &Point,
        h: &Point,
    ) -> (r: Result<(), DvssError>)
        requires
            old(self).inv(threshold as nat, total as nat, *g, *h),
            forall|p: usize|
                1 <= p <= total && p != old(self)@.id ==> #[trigger] old(self)@.peer_shares.contains_key(p),
        ensures
            final(self).inv(threshold as nat, total as nat, *g, *h),
            r is Ok,
            r is Ok ==> {
                let v = old(self)@;
                let fc = final(self)@.final_comm_coeffs;
                &&& final(self)@ == v.finalized(fc, final(self)@.secret_share)
                &&& final(self)@.secret_share.val() == v.s_sum(total as nat)
                &&& v.aggregates(fc, threshold as nat, total as nat)
                &&& share_verifies(threshold as nat, v.id as int, v.s_sum(total as nat), v.t_sum(total as nat), fc, *g, *h)
            },
    {
        let ghost v = self@;
        let id = self.id;
        // Commitments to the coefficients of the distributed secret's polynomial
        let mut final_comm_coeffs: Vec<Point> = Vec::new();
        let mut j: usize = 0;
        while j < threshold
            invariant
                self@ == v,
                self.inv(threshold as nat, total as nat, *g, *h),
                id == v.id,
                forall|p: usize| 1 <= p <= total && p != v.id ==> #[trigger] v.peer_shares.contains_key(p),
                j <= threshold,
                final_comm_coeffs@.len() == j,
                forall|m: int| 0 <= m < j ==> #[trigger] final_comm_coeffs@[m].log() == v.comm_sum(m, total as nat),
            decreases threshold - j,
        {
            // cm is the sum of each participant's commitment to its polynomial's j-th coefficient
            let mut cm = point_identity();
            let mut p: usize = 0;
            while p < total
                invariant
                    self@ == v,
                    self.inv(threshold as nat, total as nat, *g, *h),
                    id == v.id,
                    forall|p: usize| 1 <= p <= total && p != v.id ==> #[trigger] v.peer_shares.contains_key(p),
                    j < threshold,
                    p <= total,
                    cm.log() == v.comm_sum(j as int, p as nat),
                decreases total - p,
            {
                let pid = p + 1;
                if pid != id {
                    assert(v.peer_shares.contains_key(pid));
                    match self.all_comm_coeffs.get(&pid) {
                        Some(c) => {
                            cm = point_add(&cm, &c[j]);
                        },
                        None => {},
                    }
                } else {
                    cm = point_add(&cm, &self.comm_coeffs[j]);
                }
                p = pid;
            }
            final_comm_coeffs.push(cm);
            j = j + 1;
        }
        let mut final_s_share = scalar_from_u64(0);
        let mut final_t_share = scalar_from_u64(0);
        let mut p: usize = 0;
        while p < total
            invariant
                self@ == v,
                self.inv(threshold as nat, total as nat, *g, *h),
                id == v.id,
                forall|p: usize| 1 <= p <= total && p != v.id ==> #[trigger] v.peer_shares.contains_key(p),
                p <= total,
                final_s_share.wf(),
                final_t_share.wf(),
                final_s_share.val() == v.s_sum(p as nat),
                final_t_share.val() == v.t_sum(p as nat),
            decreases total - p,
        {
            let pid = p + 1;
            if pid != id {
                assert(v.peer_shares.contains_key(pid));
                match self.all_shares.get(&pid) {
                    Some(st) => {
                        final_s_share = scalar_add(&final_s_share, &st.0);
                        final_t_share = scalar_add(&final_t_share, &st.1);
                    },
                    None => {},
                }
            } else {
                assert(v.s_shares.contains_key(pid));
                assert(v.t_shares.contains_key(pid));
                match (self.s_shares.get(&pid), self.t_shares.get(&pid)) {
                    (Some(s), Some(t)) => {
                        final_s_share = scalar_add(&final_s_share, s);
                        final_t_share = scalar_add(&final_t_share, t);
                    },
                    _ => {},
                }
            }
            p = pid;
        }
        // Verify computed share of the distributed secret
        let ok = PedersenVSS::verify_share(
            threshold,
            id,
            (&final_s_share, &final_t_share),
            &final_comm_coeffs,
            g,
            h,
        );
        proof {
            assert forall|p: nat| 1 <= p <= total implies {
                &&& (#[trigger] v.commitments_of(p)).len() >= threshold
                &&& share_verifies(threshold as nat, v.id as int, v.contribution(p).0.val(), v.contribution(p).1.val(), v.commitments_of(p), *g, *h)
            } by {
                if p != v.id {
                    assert(v.peer_shares.contains_key(p as usize));
                }
            }
            lemma_aggregate_verifies(v, threshold as nat, total as nat, total as nat, *g, *h);
            assert(crate::group::logs(final_comm_coeffs@.take(threshold as int)) =~= aggregate_logs(v, threshold as nat, total as nat));
        }
        // Under the invariant this check always passes; it guards against corrupted state.
        if !ok {
            return Err(DvssError::AggregationSelfCheckFailed);
        }
        let ghost fc = final_comm_coeffs@;
        self.final_comm_coeffs = final_comm_coeffs;
        self.secret_share = final_s_share;
        proof {
            assert(self@ == v.finalized(fc, final_s_share));
        }
        Ok(())
    }
}

} // verus!
