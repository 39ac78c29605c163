//! Shamir secret sharing over F_q.

use crate::field::{q, scalar_add, scalar_from_u64, vals, Scalar};
use crate::polynomial::{is_lagrange_basis_at_0, poly_eval, Polynomial};
use std::collections::HashMap;
use vstd::prelude::*;

verus! {

broadcast use vstd::std_specs::hash::group_hash_axioms;

/// `shares` maps each identifier `1..=total`, and no other, to the value in F_q of the
/// polynomial with coefficients `c` at that identifier.
pub open spec fn is_share_set(shares: Map<usize, Scalar>, c: Seq<int>, total: nat) -> bool {
    &&& forall|i: usize| #[trigger] shares.contains_key(i) <==> 1 <= i <= total
    &&& forall|i: usize|
        #[trigger] shares.contains_key(i) ==> shares[i].wf() && shares[i].val() == poly_eval(
            c,
            i as int,
        )
}

/// The identifiers of a list of shares.
pub open spec fn share_ids(s: Seq<(usize, Scalar)>) -> Seq<usize> {
    s.map_values(|p: (usize, Scalar)| p.0)
}

/// The values of a list of shares.
pub open spec fn share_vals(s: Seq<(usize, Scalar)>) -> Seq<int> {
    s.map_values(|p: (usize, Scalar)| p.1.val())
}

/// `l_0 * v_0 + l_1 * v_1 + ...` in F_q, on the common prefix.
pub open spec fn field_combination(l: Seq<int>, v: Seq<int>) -> int
    decreases l.len(),
{
    if l.len() == 0 || v.len() == 0 {
        0
    } else {
        (field_combination(l.drop_last(), v.take(l.len() - 1)) + (l.last() * v[l.len() - 1])
            % q()) % q()
    }
}

/// `r` is the Lagrange interpolation at zero of the shares `s`: the sum over the shares of
/// the share's value times its Lagrange basis value at zero over the identifiers of `s`.
pub open spec fn interpolates_at_0(s: Seq<(usize, Scalar)>, r: int) -> bool {
    exists|l: Seq<int>|
        {
            &&& l.len() == s.len()
            &&& forall|j: int|
                0 <= j < s.len() ==> #[trigger] is_lagrange_basis_at_0(share_ids(s), s[j].0, l[j])
            &&& r == field_combination(l, share_vals(s))
        }
}

/// Generate a random polynomial with the secret at the polynomial evaluation at 0.
pub fn get_shared_secret_with_polynomial(threshold: usize, total: usize) -> (r: (
    Scalar,
    HashMap<usize, Scalar>,
    Polynomial,
))
    requires
        1 <= threshold <= total,
        total <= i64::MAX,
    ensures
        r.2.wf(),
        r.2@.len() == threshold,
        r.0.wf(),
        r.0.val() == poly_eval(vals(r.2@), 0),
        r.0.val() == r.2@[0].val(),
        is_share_set(r.1@, vals(r.2@), total as nat),
{
    let random_poly = Polynomial::random(threshold - 1);
    let zero = scalar_from_u64(0);
    let secret = random_poly.eval(&zero);
    proof {
        crate::polynomial::lemma_eval_at_zero(vals(random_poly@));
    }
    let mut shares: HashMap<usize, Scalar> = HashMap::new();
    let mut x: usize = 0;
    while x < total
        invariant
            x <= total,
            total <= i64::MAX,
            random_poly.wf(),
            forall|i: usize| #[trigger] shares@.contains_key(i) <==> 1 <= i <= x,
            forall|i: usize|
                #[trigger] shares@.contains_key(i) ==> shares@[i].wf() && shares@[i].val()
                    == poly_eval(vals(random_poly@), i as int),
        decreases total - x,
    {
        let id = x + 1;
        let v = random_poly.eval(&scalar_from_u64(id as u64));
        shares.insert(id, v);
        x = id;
    }
    (secret, shares, random_poly)
}

/// Generate a secret with its shares according to Shamir secret sharing.
/// Returns the secret and a map of share_id -> share
pub fn get_shared_secret(threshold: usize, total: usize) -> (r: (Scalar, HashMap<usize, Scalar>))
    requires
        1 <= threshold <= total,
        total <= i64::MAX,
    ensures
        r.0.wf(),
        exists|c: Seq<int>|
            #![trigger poly_eval(c, 0)]
            c.len() == threshold && r.0.val() == poly_eval(c, 0) && is_share_set(
                r.1@,
                c,
                total as nat,
            ),
{
    let r = get_shared_secret_with_polynomial(threshold, total);
    proof {
        let c = vals(r.2@);
        assert(is_share_set(r.1@, c, total as nat));
        assert(c.len() == threshold);
        assert(r.0.val() == poly_eval(c, 0));
    }
    (r.0, r.1)
}

/// The identifiers of the list are pairwise distinct.
pub open spec fn distinct_ids(s: Seq<(usize, Scalar)>) -> bool {
    forall|a: int, b: int|
        0 <= a < s.len() && 0 <= b < s.len() && a != b ==> #[trigger] s[a].0 != #[trigger] s[b].0
}

/// `chosen` lists the `k` shares of `s` with the smallest identifiers, in increasing order
/// of identifier.
pub open spec fn smallest_shares(s: Seq<(usize, Scalar)>, chosen: Seq<(usize, Scalar)>, k: nat) -> bool {
    &&& chosen.len() == k
    &&& forall|a: int, b: int| 0 <= a < b < k ==> #[trigger] chosen[a].0 < #[trigger] chosen[b].0
    &&& forall|a: int| 0 <= a < k ==> s.contains(#[trigger] chosen[a])
    &&& forall|j: int|
        0 <= j < s.len() ==> chosen.contains(#[trigger] s[j]) || (forall|a: int|
            0 <= a < k ==> #[trigger] chosen[a].0 < s[j].0)
}

/// Reconstruct the secret by Lagrange interpolation at zero from the `threshold` shares
/// with the smallest identifiers, given as (identifier, value) pairs with distinct
/// identifiers.
pub fn reconstruct_secret(threshold: usize, shares: Vec<(usize, Scalar)>) -> (r: Scalar)
    requires
        shares@.len() >= threshold,
        distinct_ids(shares@),
        forall|j: int| 0 <= j < shares@.len() ==> (#[trigger] shares@[j]).1.wf(),
        forall|j: int| 0 <= j < shares@.len() ==> (#[trigger] shares@[j]).0 <= i64::MAX,
    ensures
        r.wf(),
        exists|chosen: Seq<(usize, Scalar)>|
            #![trigger interpolates_at_0(chosen, r.val())]
            smallest_shares(shares@, chosen, threshold as nat) && interpolates_at_0(chosen, r.val()),
{
    let picked = select_smallest(&shares, threshold);
    proof {
        assert forall|a: int| 0 <= a < picked@.len() implies (#[trigger] picked@[a]).1.wf()
            && picked@[a].0 <= i64::MAX by {
            assert(shares@.contains(picked@[a]));
            let j = choose|j: int| 0 <= j < shares@.len() && shares@[j] == picked@[a];
            assert(shares@[j].1.wf());
        }
        assert(picked@.take(threshold as int) =~= picked@);
    }
    let r = interpolate_at_0(&picked, threshold);
    proof {
        assert(smallest_shares(shares@, picked@, threshold as nat) && interpolates_at_0(picked@, r.val()));
    }
    r
}

/// The `k` shares of the list with the smallest identifiers, by increasing identifier.
fn select_smallest(shares: &Vec<(usize, Scalar)>, k: usize) -> (chosen: Vec<(usize, Scalar)>)
    requires
        k <= shares@.len(),
        distinct_ids(shares@),
    ensures
        smallest_shares(shares@, chosen@, k as nat),
{
    let n = shares.len();
    let mut chosen: Vec<(usize, Scalar)> = Vec::new();
    let ghost mut idx: Seq<int> = Seq::empty();
    let mut r: usize = 0;
    while r < k
        invariant
            r <= k <= n,
            n == shares@.len(),
            distinct_ids(shares@),
            chosen@.len() == r,
            idx.len() == r,
            forall|a: int| 0 <= a < r ==> 0 <= #[trigger] idx[a] < n && shares@[idx[a]] == chosen@[a],
            forall|a: int, b: int| 0 <= a < b < r ==> #[trigger] chosen@[a].0 < #[trigger] chosen@[b].0,
            forall|j: int|
                0 <= j < n && r > 0 && #[trigger] shares@[j].0 <= chosen@[r - 1].0 ==> idx.contains(j),
        decreases k - r,
    {
        // the share with the smallest identifier above those already chosen
        let mut best: usize = 0;
        let mut found = false;
        let mut j: usize = 0;
        while j < n
            invariant
                r < k <= n,
                n == shares@.len(),
                chosen@.len() == r,
                j <= n,
                found ==> best < j && (r == 0 || shares@[best as int].0 > chosen@[r - 1].0),
                found ==> forall|m: int|
                    0 <= m < j && (r == 0 || #[trigger] shares@[m].0 > chosen@[r - 1].0)
                        ==> shares@[best as int].0 <= shares@[m].0,
                !found ==> forall|m: int| 0 <= m < j ==> !(r == 0 || #[trigger] shares@[m].0 > chosen@[r - 1].0),
            decreases n - j,
        {
            let id = shares[j].0;
            if (r == 0 || id > chosen[r - 1].0) && (!found || id < shares[best].0) {
                best = j;
                found = true;
            }
            j = j + 1;
        }
        proof {
            if !found {
                // every share is already chosen: more than r shares, all among r indices
                let all = vstd::set_lib::set_int_range(0, n as int);
                assert forall|m: int| all.contains(m) implies #[trigger] idx.to_set().contains(m) by {
                    assert(!(r == 0 || shares@[m].0 > chosen@[r - 1].0));
                    assert(idx.contains(m));
                }
                vstd::set_lib::lemma_int_range(0, n as int);
                idx.lemma_cardinality_of_set();
                vstd::set_lib::lemma_len_subset(all, idx.to_set());
            }
        }
        let ghost old_idx = idx;
        let ghost old_chosen = chosen@;
        chosen.push(shares[best]);
        proof {
            idx = idx.push(best as int);
            assert forall|m: int|
                0 <= m < n && #[trigger] shares@[m].0 <= chosen@[r as int].0 implies idx.contains(m) by {
                if r > 0 && shares@[m].0 <= old_chosen[r - 1].0 {
                    assert(old_idx.contains(m));
                    let a = choose|a: int| 0 <= a < old_idx.len() && old_idx[a] == m;
                    assert(idx[a] == m);
                } else {
                    assert(shares@[best as int].0 <= shares@[m].0);
                    assert(m == best);
                    assert(idx[r as int] == m);
                }
            }
        }
        r = r + 1;
    }
    proof {
        assert forall|a: int| 0 <= a < k implies shares@.contains(#[trigger] chosen@[a]) by {
            assert(shares@[idx[a]] == chosen@[a]);
        }
        assert forall|j: int| 0 <= j < n implies chosen@.contains(#[trigger] shares@[j]) || (forall|a: int|
            0 <= a < k ==> #[trigger] chosen@[a].0 < shares@[j].0) by {
            if k > 0 && shares@[j].0 <= chosen@[k - 1].0 {
                assert(idx.contains(j));
                let a = choose|a: int| 0 <= a < idx.len() && idx[a] == j;
                assert(chosen@[a] == shares@[j]);
            } else if k > 0 {
                assert forall|a: int| 0 <= a < k implies #[trigger] chosen@[a].0 < shares@[j].0 by {
                    if a < k - 1 {
                        assert(chosen@[a].0 < chosen@[k - 1].0);
                    }
                }
            }
        }
    }
    chosen
}

/// Lagrange interpolation at zero over the first `threshold` shares of the list.
fn interpolate_at_0(shares: &Vec<(usize, Scalar)>, threshold: usize) -> (r: Scalar)
    requires
        shares@.len() >= threshold,
        forall|j: int| 0 <= j < shares@.len() ==> (#[trigger] shares@[j]).1.wf(),
        forall|j: int| 0 <= j < shares@.len() ==> (#[trigger] shares@[j]).0 <= i64::MAX,
    ensures
        r.wf(),
        interpolates_at_0(shares@.take(threshold as int), r.val()),
{
    let ghost chosen = shares@.take(threshold as int);
    let mut share_ids_vec: Vec<usize> = Vec::new();
    let mut j: usize = 0;
    while j < threshold
        invariant
            j <= threshold <= shares@.len(),
            chosen == shares@.take(threshold as int),
            share_ids_vec@ == share_ids(chosen).take(j as int),
        decreases threshold - j,
    {
        share_ids_vec.push(shares[j].0);
        proof {
            assert(share_ids_vec@ =~= share_ids(chosen).take(j + 1));
        }
        j = j + 1;
    }
    proof {
        assert(share_ids_vec@ =~= share_ids(chosen));
    }
    let mut secret = scalar_from_u64(0);
    let ghost mut lambdas: Seq<int> = Seq::empty();
    let mut j: usize = 0;
    while j < threshold
        invariant
            j <= threshold <= shares@.len(),
            chosen == shares@.take(threshold as int),
            share_ids_vec@ == share_ids(chosen),
            forall|m: int| 0 <= m < shares@.len() ==> (#[trigger] shares@[m]).1.wf(),
            forall|m: int| 0 <= m < shares@.len() ==> (#[trigger] shares@[m]).0 <= i64::MAX,
            secret.wf(),
            lambdas.len() == j,
            forall|m: int|
                0 <= m < j ==> #[trigger] is_lagrange_basis_at_0(
                    share_ids(chosen),
                    chosen[m].0,
                    lambdas[m],
                ),
            secret.val() == field_combination(lambdas, share_vals(chosen).take(j as int)),
        decreases threshold - j,
    {
        let (id, share) = shares[j];
        let l = Polynomial::lagrange_basis_at_0(&share_ids_vec, id);
        let term = crate::field::scalar_mul(&l, &share);
        secret = scalar_add(&secret, &term);
        proof {
            let lp = lambdas.push(l.val());
            let vt = share_vals(chosen).take(j + 1);
            assert(lp.drop_last() =~= lambdas);
            assert(vt.take(j as int) =~= share_vals(chosen).take(j as int));
            assert(vt[j as int] == share.val());
            lambdas = lp;
        }
        j = j + 1;
    }
    proof {
        assert(share_vals(chosen).take(threshold as int) =~= share_vals(chosen));
        assert(lambdas.len() == chosen.len());
    }
    secret
}

} // verus!
