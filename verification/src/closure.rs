//! The mathematical account of transitive requirement resolution.
//!
//! Labels, not parcels, are the traversal frontier: a parcel depends on
//! another only indirectly, through a group label that the first requires
//! and the second is a member of.  `reaches` describes the labels reachable
//! from a starting label set in a bounded number of expansion rounds,
//! `reachable` closes over the bound, and `in_closure` lifts reachability
//! from labels to parcels.  `is_closure_result` is the full contract of the
//! resolver: a deduplicated sequence that contains exactly the manifest
//! parcels whose fingerprint belongs to the closure.

use vstd::prelude::*;
use crate::model::ParcelData;

verus! {

/// `label` can be reached from the label set `base` in at most `n`
/// expansion rounds over the parcels `ps`: each round moves from a reached
/// label to every label required by one of its member parcels.
pub open spec fn reaches(
    ps: Seq<ParcelData>,
    base: Seq<Seq<char>>,
    label: Seq<char>,
    n: nat,
) -> bool
    decreases n,
{
    if base.contains(label) {
        true
    } else if n == 0 {
        false
    } else {
        exists|i: int, prev: Seq<char>|
            0 <= i < ps.len() && #[trigger] ps[i].in_group(prev)
                && reaches(ps, base, prev, (n - 1) as nat)
                && ps[i].required_seq().contains(label)
    }
}

/// `label` can be reached from `base` in some number of rounds.
pub open spec fn reachable(ps: Seq<ParcelData>, base: Seq<Seq<char>>, label: Seq<char>) -> bool {
    exists|n: nat| reaches(ps, base, label, n)
}

/// The parcel `p` belongs to the closure of `base`: it is a member of some
/// reachable label.
pub open spec fn in_closure(ps: Seq<ParcelData>, base: Seq<Seq<char>>, p: ParcelData) -> bool {
    exists|label: Seq<char>| reachable(ps, base, label) && p.in_group(label)
}

/// No two entries of `r` share a fingerprint.
pub open spec fn distinct_fingerprints(r: Seq<ParcelData>) -> bool {
    forall|i: int, j: int|
        0 <= i < r.len() && 0 <= j < r.len() && i != j ==> r[i].sha != r[j].sha
}

/// Some entry of `r` carries the fingerprint `fp`.
pub open spec fn has_fingerprint(r: Seq<ParcelData>, fp: Seq<char>) -> bool {
    exists|i: int| 0 <= i < r.len() && r[i].sha == fp
}

/// The set of fingerprints carried by the entries of `r`.
pub open spec fn fingerprint_set(r: Seq<ParcelData>) -> Set<Seq<char>> {
    Set::new(|fp: Seq<char>| has_fingerprint(r, fp))
}

/// The resolver's contract.  `r` lists, without duplicate fingerprints,
/// manifest parcels of the closure of `base`, and covers the fingerprint of
/// every manifest parcel in that closure.
pub open spec fn is_closure_result(
    ps: Seq<ParcelData>,
    base: Seq<Seq<char>>,
    r: Seq<ParcelData>,
) -> bool {
    &&& distinct_fingerprints(r)
    &&& forall|k: int|
        0 <= k < r.len() ==> ps.contains(#[trigger] r[k]) && in_closure(ps, base, r[k])
    &&& forall|j: int|
        0 <= j < ps.len() && in_closure(ps, base, #[trigger] ps[j]) ==> has_fingerprint(
            r,
            ps[j].sha,
        )
}

/// The parcels of `ps` that are members of `group`, in their `ps` order:
/// the join of the requirement relation with the membership relation.
pub open spec fn members_of(ps: Seq<ParcelData>, group: Seq<char>) -> Seq<ParcelData> {
    ps.filter(|p: ParcelData| p.in_group(group))
}

/// An element of a filtered sequence is an element of the unfiltered one.
pub broadcast proof fn lemma_filter_subset<A>(s: Seq<A>, pred: spec_fn(A) -> bool, i: int)
    requires
        0 <= i < s.filter(pred).len(),
    ensures
        s.contains(#[trigger] s.filter(pred)[i]),
    decreases s.len(),
{
    reveal(Seq::filter);
    if s.len() == 0 {
    } else {
        let sub = s.drop_last().filter(pred);
        if i < sub.len() {
            lemma_filter_subset(s.drop_last(), pred, i);
            let j = choose|j: int| 0 <= j < s.drop_last().len() && s.drop_last()[j] == sub[i];
            assert(s[j] == sub[i]);
            assert(s.filter(pred)[i] == sub[i]);
        } else {
            assert(s.filter(pred)[i] == s.last());
            assert(s[s.len() - 1] == s.last());
        }
    }
}

/// What `members_of` keeps: exactly the member parcels of the group, each
/// drawn from the manifest.
pub proof fn lemma_members_of_facts(ps: Seq<ParcelData>, group: Seq<char>)
    ensures
        forall|t: int|
            0 <= t < members_of(ps, group).len() ==> ps.contains(
                #[trigger] members_of(ps, group)[t],
            ) && members_of(ps, group)[t].in_group(group),
        forall|j: int|
            0 <= j < ps.len() && #[trigger] ps[j].in_group(group) ==> members_of(
                ps,
                group,
            ).contains(ps[j]),
{
    broadcast use lemma_filter_subset, Seq::lemma_filter_pred, Seq::lemma_filter_contains;

}

/// One expansion round: a label required by a member parcel of a reached
/// label is itself reached, with the round count raised by one.
pub proof fn lemma_reaches_step(
    ps: Seq<ParcelData>,
    base: Seq<Seq<char>>,
    i: int,
    prev: Seq<char>,
    label: Seq<char>,
    n: nat,
)
    requires
        0 <= i < ps.len(),
        ps[i].in_group(prev),
        reaches(ps, base, prev, n),
        ps[i].required_seq().contains(label),
    ensures
        reaches(ps, base, label, n + 1),
{
    if !base.contains(label) {
        assert(0 <= i < ps.len() && ps[i].in_group(prev) && reaches(
            ps,
            base,
            prev,
            ((n + 1) - 1) as nat,
        ) && ps[i].required_seq().contains(label));
    }
}

/// A worklist that contains the base labels, has had every one of its
/// labels expanded into `acc`, and has recorded every requirement of `acc`
/// back into itself, contains every reachable label.
pub proof fn lemma_worklist_complete(
    ps: Seq<ParcelData>,
    base: Seq<Seq<char>>,
    labels: Seq<Seq<char>>,
    acc: Seq<ParcelData>,
    label: Seq<char>,
    n: nat,
)
    requires
        forall|b: Seq<char>| #[trigger] base.contains(b) ==> labels.contains(b),
        forall|t: int, j: int|
            0 <= t < labels.len() && 0 <= j < ps.len() && #[trigger] ps[j].in_group(labels[t])
                ==> acc.contains(ps[j]),
        forall|k: int, l2: Seq<char>|
            0 <= k < acc.len() && #[trigger] acc[k].required_seq().contains(l2) ==> labels.contains(
                l2,
            ),
        reaches(ps, base, label, n),
    ensures
        labels.contains(label),
    decreases n,
{
    if base.contains(label) {
    } else {
        assert(n > 0);
        let (i, prev): (int, Seq<char>) = choose|i: int, prev: Seq<char>|
            0 <= i < ps.len() && #[trigger] ps[i].in_group(prev) && reaches(
                ps,
                base,
                prev,
                (n - 1) as nat,
            ) && ps[i].required_seq().contains(label);
        lemma_worklist_complete(ps, base, labels, acc, prev, (n - 1) as nat);
        let t = choose|t: int| 0 <= t < labels.len() && labels[t] == prev;
        assert(ps[i].in_group(labels[t]));
        assert(acc.contains(ps[i]));
        let k = choose|k: int| 0 <= k < acc.len() && acc[k] == ps[i];
        assert(acc[k].required_seq().contains(label));
    }
}

/// Labels reached from a set of labels that are themselves reachable from
/// `base` are reachable from `base`.
pub proof fn lemma_reachable_from_reachable_base(
    ps: Seq<ParcelData>,
    base: Seq<Seq<char>>,
    base2: Seq<Seq<char>>,
    label: Seq<char>,
    n: nat,
)
    requires
        forall|b: Seq<char>| #[trigger] base2.contains(b) ==> reachable(ps, base, b),
        reaches(ps, base2, label, n),
    ensures
        reachable(ps, base, label),
    decreases n,
{
    if base2.contains(label) {
    } else {
        assert(n > 0);
        let (i, prev): (int, Seq<char>) = choose|i: int, prev: Seq<char>|
            0 <= i < ps.len() && #[trigger] ps[i].in_group(prev) && reaches(
                ps,
                base2,
                prev,
                (n - 1) as nat,
            ) && ps[i].required_seq().contains(label);
        lemma_reachable_from_reachable_base(ps, base, base2, prev, (n - 1) as nat);
        let m = choose|m: nat| reaches(ps, base, prev, m);
        lemma_reaches_step(ps, base, i, prev, label, m);
    }
}

/// Law: a resolution result is a fixed point under one further round of
/// expansion.  Resolving any label that a result parcel requires yields
/// only parcels whose fingerprint the result already holds.
pub proof fn lemma_closure_fixed_point(
    ps: Seq<ParcelData>,
    base: Seq<Seq<char>>,
    r: Seq<ParcelData>,
    k: int,
    label: Seq<char>,
    j: int,
)
    requires
        is_closure_result(ps, base, r),
        0 <= k < r.len(),
        r[k].required_seq().contains(label),
        0 <= j < ps.len(),
        ps[j].in_group(label),
    ensures
        has_fingerprint(r, ps[j].sha),
{
    assert(in_closure(ps, base, r[k]));
    let l0 = choose|l0: Seq<char>| reachable(ps, base, l0) && r[k].in_group(l0);
    let n0 = choose|n0: nat| reaches(ps, base, l0, n0);
    assert(ps.contains(r[k]));
    let idx = choose|idx: int| 0 <= idx < ps.len() && ps[idx] == r[k];
    lemma_reaches_step(ps, base, idx, l0, label, n0);
    assert(reachable(ps, base, label) && ps[j].in_group(label));
    assert(in_closure(ps, base, ps[j]));
}

/// Law: re-seeding a resolution from a result parcel expands nothing.
/// Every manifest parcel in the closure of a result entry's own
/// requirements already has its fingerprint in the result.
pub proof fn lemma_closure_idempotent(
    ps: Seq<ParcelData>,
    base: Seq<Seq<char>>,
    r: Seq<ParcelData>,
    k: int,
    q: ParcelData,
)
    requires
        is_closure_result(ps, base, r),
        0 <= k < r.len(),
        ps.contains(q),
        in_closure(ps, r[k].required_seq(), q),
    ensures
        has_fingerprint(r, q.sha),
{
    assert(in_closure(ps, base, r[k]));
    let l0 = choose|l0: Seq<char>| reachable(ps, base, l0) && r[k].in_group(l0);
    let n0 = choose|n0: nat| reaches(ps, base, l0, n0);
    assert(ps.contains(r[k]));
    let idx = choose|idx: int| 0 <= idx < ps.len() && ps[idx] == r[k];
    assert forall|b: Seq<char>| #[trigger] r[k].required_seq().contains(b) implies reachable(
        ps,
        base,
        b,
    ) by {
        lemma_reaches_step(ps, base, idx, l0, b, n0);
    }
    let l = choose|l: Seq<char>| reachable(ps, r[k].required_seq(), l) && q.in_group(l);
    let n = choose|n: nat| reaches(ps, r[k].required_seq(), l, n);
    lemma_reachable_from_reachable_base(ps, base, r[k].required_seq(), l, n);
    assert(reachable(ps, base, l) && q.in_group(l));
    assert(in_closure(ps, base, q));
    let j = choose|j: int| 0 <= j < ps.len() && ps[j] == q;
    assert(has_fingerprint(r, ps[j].sha));
}

/// Law: resolution is deterministic.  Any two results for the same
/// manifest and the same starting requirements carry the same set of
/// fingerprints.
pub proof fn lemma_closure_deterministic(
    ps: Seq<ParcelData>,
    base: Seq<Seq<char>>,
    r1: Seq<ParcelData>,
    r2: Seq<ParcelData>,
)
    requires
        is_closure_result(ps, base, r1),
        is_closure_result(ps, base, r2),
    ensures
        fingerprint_set(r1) == fingerprint_set(r2),
{
    assert forall|fp: Seq<char>| fingerprint_set(r1).contains(fp) implies fingerprint_set(
        r2,
    ).contains(fp) by {
        let i = choose|i: int| 0 <= i < r1.len() && r1[i].sha == fp;
        let j = choose|j: int| 0 <= j < ps.len() && ps[j] == r1[i];
        assert(has_fingerprint(r2, ps[j].sha));
    }
    assert forall|fp: Seq<char>| fingerprint_set(r2).contains(fp) implies fingerprint_set(
        r1,
    ).contains(fp) by {
        let i = choose|i: int| 0 <= i < r2.len() && r2[i].sha == fp;
        let j = choose|j: int| 0 <= j < ps.len() && ps[j] == r2[i];
        assert(has_fingerprint(r1, ps[j].sha));
    }
    assert(fingerprint_set(r1) =~= fingerprint_set(r2));
}

/// From an empty label set nothing is reachable.
proof fn lemma_empty_base_unreachable(
    ps: Seq<ParcelData>,
    base: Seq<Seq<char>>,
    label: Seq<char>,
    n: nat,
)
    requires
        base.len() == 0,
    ensures
        !reaches(ps, base, label, n),
    decreases n,
{
    if reaches(ps, base, label, n) {
        assert(!base.contains(label));
        assert(n > 0);
        let (i, prev): (int, Seq<char>) = choose|i: int, prev: Seq<char>|
            0 <= i < ps.len() && #[trigger] ps[i].in_group(prev) && reaches(
                ps,
                base,
                prev,
                (n - 1) as nat,
            ) && ps[i].required_seq().contains(label);
        lemma_empty_base_unreachable(ps, base, prev, (n - 1) as nat);
    }
}

/// Law: a parcel that requires nothing resolves to nothing.
pub proof fn lemma_no_requirements_no_result(
    ps: Seq<ParcelData>,
    base: Seq<Seq<char>>,
    r: Seq<ParcelData>,
)
    requires
        is_closure_result(ps, base, r),
        base.len() == 0,
    ensures
        r.len() == 0,
{
    if r.len() > 0 {
        assert(in_closure(ps, base, r[0]));
        let l = choose|l: Seq<char>| reachable(ps, base, l) && r[0].in_group(l);
        let n = choose|n: nat| reaches(ps, base, l, n);
        lemma_empty_base_unreachable(ps, base, l, n);
    }
}

/// Law: an empty manifest resolves to nothing, whatever the seed.
pub proof fn lemma_empty_manifest_no_result(
    ps: Seq<ParcelData>,
    base: Seq<Seq<char>>,
    r: Seq<ParcelData>,
)
    requires
        is_closure_result(ps, base, r),
        ps.len() == 0,
    ensures
        r.len() == 0,
{
    if r.len() > 0 {
        assert(ps.contains(r[0]));
    }
}

} // verus!
