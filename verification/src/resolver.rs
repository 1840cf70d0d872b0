//! The closure resolver: label-frontier expansion to a fixed point.
//!
//! Starting from the group labels a parcel requires, the resolver
//! repeatedly expands a label into its member parcels, records each
//! member's own required labels, and stops once every discovered label has
//! been expanded.  Each distinct label is expanded at most once per call,
//! which guarantees termination whatever cycles the requirement graph
//! holds.  The accumulated parcels are finally deduplicated by fingerprint,
//! keeping the first occurrence.

use vstd::prelude::*;
use vstd::seq_lib::seq_to_set_is_finite;
use vstd::set_lib::lemma_len_subset;
use crate::closure::{
    distinct_fingerprints, has_fingerprint, in_closure, is_closure_result,
    lemma_members_of_facts, lemma_reaches_step, lemma_worklist_complete, members_of, reachable,
    reaches,
};
use crate::index::{contains_string, InvoiceHelpers, ParcelHelpers};
use crate::model::{Invoice, Parcel, ParcelData};

verus! {

/// Every label that a resolution starting from `base` can ever meet:
/// the base labels and every label some parcel requires.
pub open spec fn universe_seq(ps: Seq<ParcelData>, base: Seq<Seq<char>>) -> Seq<Seq<char>> {
    base + ps.map_values(|p: ParcelData| p.required_seq()).flatten()
}

/// An element of a member sequence is an element of its flattening.
proof fn lemma_flatten_contains<A>(s: Seq<Seq<A>>, i: int, x: A)
    requires
        0 <= i < s.len(),
        s[i].contains(x),
    ensures
        s.flatten().contains(x),
    decreases s.len(),
{
    if i == 0 {
        let j = choose|j: int| 0 <= j < s[0].len() && s[0][j] == x;
        assert(s.flatten() == s.first() + s.drop_first().flatten());
        assert(s.flatten()[j] == x);
    } else {
        assert(s.drop_first()[i - 1] == s[i]);
        lemma_flatten_contains(s.drop_first(), i - 1, x);
        let j = choose|j: int|
            0 <= j < s.drop_first().flatten().len() && s.drop_first().flatten()[j] == x;
        assert(s.flatten() == s.first() + s.drop_first().flatten());
        assert(s.flatten()[s.first().len() + j] == x);
    }
}

/// Pushing keeps every element that was already contained.
proof fn lemma_push_preserves_contains<A>(s: Seq<A>, x: A, y: A)
    requires
        s.contains(y),
    ensures
        s.push(x).contains(y),
{
    let j = choose|j: int| 0 <= j < s.len() && s[j] == y;
    assert(s.push(x)[j] == y);
}

/// Pushing a fresh element keeps a sequence duplicate-free.
proof fn lemma_push_no_duplicates<A>(s: Seq<A>, x: A)
    requires
        s.no_duplicates(),
        !s.contains(x),
    ensures
        s.push(x).no_duplicates(),
{
    assert forall|i: int, j: int|
        0 <= i < s.push(x).len() && 0 <= j < s.push(x).len() && i != j implies s.push(x)[i]
        != s.push(x)[j] by {
        if i < s.len() && j < s.len() {
        } else if i < s.len() {
            assert(s.contains(s[i]));
        } else if j < s.len() {
            assert(s.contains(s[j]));
        }
    }
}

/// A base label belongs to the universe.
proof fn lemma_universe_has_base(ps: Seq<ParcelData>, base: Seq<Seq<char>>, b: Seq<char>)
    requires
        base.contains(b),
    ensures
        universe_seq(ps, base).contains(b),
{
    let t = choose|t: int| 0 <= t < base.len() && base[t] == b;
    assert(universe_seq(ps, base)[t] == b);
}

/// A label some parcel requires belongs to the universe.
proof fn lemma_universe_has_requirement(
    ps: Seq<ParcelData>,
    base: Seq<Seq<char>>,
    j: int,
    label: Seq<char>,
)
    requires
        0 <= j < ps.len(),
        ps[j].required_seq().contains(label),
    ensures
        universe_seq(ps, base).contains(label),
{
    let mapped = ps.map_values(|p: ParcelData| p.required_seq());
    assert(mapped[j] == ps[j].required_seq());
    lemma_flatten_contains(mapped, j, label);
    let t = choose|t: int|
        0 <= t < mapped.flatten().len() && mapped.flatten()[t] == label;
    assert(universe_seq(ps, base)[base.len() + t] == label);
}

/// A duplicate-free sequence whose elements all occur in `uni` is no longer
/// than the number of distinct elements of `uni`.
proof fn lemma_distinct_len_le_universe(labels: Seq<Seq<char>>, uni: Seq<Seq<char>>)
    requires
        labels.no_duplicates(),
        forall|t: int| 0 <= t < labels.len() ==> uni.contains(#[trigger] labels[t]),
    ensures
        labels.len() <= uni.to_set().len(),
{
    labels.unique_seq_to_set();
    assert forall|x: Seq<char>| labels.to_set().contains(x) implies uni.to_set().contains(x) by {
        let t = choose|t: int| 0 <= t < labels.len() && labels[t] == x;
        assert(uni.contains(labels[t]));
    }
    seq_to_set_is_finite(uni);
    lemma_len_subset(labels.to_set(), uni.to_set());
}

/// The frontier of a resolution: duplicate-free, inside the universe, and
/// made of reachable labels only.
spec fn frontier_inv(
    ps: Seq<ParcelData>,
    base: Seq<Seq<char>>,
    uni: Seq<Seq<char>>,
    labels: Seq<Seq<char>>,
) -> bool {
    &&& labels.no_duplicates()
    &&& forall|t: int|
        0 <= t < labels.len() ==> uni.contains(#[trigger] labels[t]) && reachable(
            ps,
            base,
            labels[t],
        )
    &&& labels.len() <= uni.to_set().len()
}

/// The accumulator of a resolution: manifest parcels of the closure whose
/// requirements have all been recorded in the frontier.
spec fn acc_inv(
    ps: Seq<ParcelData>,
    base: Seq<Seq<char>>,
    labels: Seq<Seq<char>>,
    acc: Seq<ParcelData>,
) -> bool {
    &&& forall|k: int|
        0 <= k < acc.len() ==> ps.contains(#[trigger] acc[k]) && in_closure(ps, base, acc[k])
    &&& forall|k: int, l: Seq<char>|
        0 <= k < acc.len() && #[trigger] acc[k].required_seq().contains(l) ==> labels.contains(l)
}

/// Appends `g` to `labels` unless an equal label is already present.
fn push_unique(labels: &mut Vec<String>, g: &String)
    ensures
        final(labels).deep_view() == (if old(labels).deep_view().contains(g@) {
            old(labels).deep_view()
        } else {
            old(labels).deep_view().push(g@)
        }),
{
    let present = contains_string(labels, g);
    if !present {
        labels.push(g.clone());
        proof {
            assert(labels.deep_view() =~= old(labels).deep_view().push(g@));
        }
    }
}

/// Whether some parcel of `v` carries the fingerprint `fp`.
fn contains_fingerprint(v: &Vec<Parcel>, fp: &String) -> (r: bool)
    ensures
        r == has_fingerprint(v.deep_view(), fp@),
{
    let mut i: usize = 0;
    while i < v.len()
        invariant
            i <= v.len(),
            forall|j: int| 0 <= j < i ==> v.deep_view()[j].sha != fp@,
        decreases v.len() - i,
    {
        if v[i].label.sha256 == *fp {
            proof {
                assert(v.deep_view()[i as int].sha == fp@);
            }
            return true;
        }
        i = i + 1;
    }
    false
}

impl InvoiceHelpers for Invoice {
    open spec fn parcel_seq(&self) -> Seq<ParcelData> {
        self@.parcel_seq()
    }

    #[verifier::loop_isolation(false)]
    fn parcels_in(&self, group: &str) -> (r: Vec<Parcel>) {
        let mut r: Vec<Parcel> = Vec::new();
        match &self.parcel {
            Option::None => {
                proof {
                    reveal(Seq::filter);
                    assert(self.parcel_seq() =~= Seq::<ParcelData>::empty());
                    assert(r.deep_view() =~= Seq::<ParcelData>::empty());
                }
                r
            },
            Option::Some(parcels) => {
                proof {
                    reveal(Seq::filter);
                    assert(r.deep_view() =~= Seq::<ParcelData>::empty());
                    assert(parcels.deep_view().take(0) =~= Seq::<ParcelData>::empty());
                }
                let mut i: usize = 0;
                while i < parcels.len()
                    invariant
                        i <= parcels.len(),
                        parcels.deep_view() == self.parcel_seq(),
                        r.deep_view() == members_of(
                            parcels.deep_view().take(i as int),
                            group@,
                        ),
                    decreases parcels.len() - i,
                {
                    let ghost dvp = parcels.deep_view();
                    let is_mem = parcels[i].is_member_of(group);
                    proof {
                        assert(parcels[i as int]@ == dvp[i as int]);
                        assert(is_mem == dvp[i as int].in_group(group@));
                    }
                    if is_mem {
                        let ghost pre = r.deep_view();
                        r.push(parcels[i].clone());
                        proof {
                            assert(r.deep_view() =~= pre.push(dvp[i as int]));
                        }
                    }
                    proof {
                        reveal(Seq::filter);
                        assert(dvp.take(i as int + 1).drop_last() =~= dvp.take(i as int));
                        assert(dvp.take(i as int + 1).last() == dvp[i as int]);
                        assert(members_of(dvp.take(i as int + 1), group@) == (if dvp[
                            i as int
                        ].in_group(group@) {
                            members_of(dvp.take(i as int), group@).push(dvp[i as int])
                        } else {
                            members_of(dvp.take(i as int), group@)
                        }));
                    }
                    i = i + 1;
                }
                proof {
                    assert(parcels.deep_view().take(parcels.len() as int) =~= parcels.deep_view());
                }
                r
            },
        }
    }

    #[verifier::loop_isolation(false)]
    fn parcels_required_by(&self, parcel: &Parcel) -> (r: Vec<Parcel>) {
        let ghost ps = self.parcel_seq();
        let ghost base = parcel@.required_seq();
        let ghost uni = universe_seq(ps, base);

        // Seed the frontier with the starting parcel's own required labels.
        let initial = parcel.required_groups();
        let mut labels: Vec<String> = Vec::new();
        proof {
            assert(labels.deep_view() =~= Seq::<Seq<char>>::empty());
        }
        let mut i: usize = 0;
        while i < initial.len()
            invariant
                i <= initial.len(),
                initial.deep_view() == base,
                frontier_inv(ps, base, uni, labels.deep_view()),
                forall|t: int|
                    0 <= t < i ==> labels.deep_view().contains(#[trigger] initial.deep_view()[t]),
            decreases initial.len() - i,
        {
            let ghost b = initial.deep_view()[i as int];
            let ghost pre = labels.deep_view();
            proof {
                assert(initial[i as int]@ == b);
                assert(base.contains(b));
                lemma_universe_has_base(ps, base, b);
                assert(reaches(ps, base, b, 0));
            }
            push_unique(&mut labels, &initial[i]);
            proof {
                if !pre.contains(b) {
                    assert(labels.deep_view() == pre.push(b));
                    lemma_push_no_duplicates(pre, b);
                    assert forall|t: int| 0 <= t < labels.deep_view().len() implies uni.contains(
                        #[trigger] labels.deep_view()[t],
                    ) && reachable(ps, base, labels.deep_view()[t]) by {
                        if t < pre.len() {
                            assert(labels.deep_view()[t] == pre[t]);
                        } else {
                            assert(labels.deep_view()[t] == b);
                        }
                    }
                    assert forall|t: int| 0 <= t < i + 1 implies labels.deep_view().contains(
                        #[trigger] initial.deep_view()[t],
                    ) by {
                        if t < i {
                            lemma_push_preserves_contains(pre, b, initial.deep_view()[t]);
                        } else {
                            assert(labels.deep_view()[pre.len() as int] == b);
                        }
                    }
                } else {
                    assert(labels.deep_view() == pre);
                    assert forall|t: int| 0 <= t < i + 1 implies labels.deep_view().contains(
                        #[trigger] initial.deep_view()[t],
                    ) by {
                    }
                }
                lemma_distinct_len_le_universe(labels.deep_view(), uni);
            }
            i = i + 1;
        }
        proof {
            assert forall|b2: Seq<char>| #[trigger] base.contains(b2) implies labels.deep_view()
                .contains(b2) by {
                let t = choose|t: int| 0 <= t < base.len() && base[t] == b2;
                assert(labels.deep_view().contains(initial.deep_view()[t]));
            }
        }

        // Expand each frontier label exactly once.
        let mut acc: Vec<Parcel> = Vec::new();
        proof {
            assert(acc.deep_view() =~= Seq::<ParcelData>::empty());
        }
        let mut done: usize = 0;
        while done < labels.len()
            invariant
                done <= labels.len(),
                frontier_inv(ps, base, uni, labels.deep_view()),
                forall|b2: Seq<char>|
                    #[trigger] base.contains(b2) ==> labels.deep_view().contains(b2),
                forall|t: int, j: int|
                    0 <= t < done && 0 <= j < ps.len() && #[trigger] ps[j].in_group(
                        labels.deep_view()[t],
                    ) ==> acc.deep_view().contains(ps[j]),
                acc_inv(ps, base, labels.deep_view(), acc.deep_view()),
            decreases uni.to_set().len() - done,
        {
            let group = labels[done].clone();
            let group_str = group.as_str();
            let ghost g = group_str@;
            proof {
                assert(g == labels.deep_view()[done as int]);
                assert(reachable(ps, base, g));
            }
            let members = self.parcels_in(group_str);
            proof {
                assert(members.deep_view() == members_of(ps, g));
                lemma_members_of_facts(ps, g);
            }
            let mut m: usize = 0;
            while m < members.len()
                invariant
                    m <= members.len(),
                    done < labels.len(),
                    labels.deep_view()[done as int] == g,
                    reachable(ps, base, g),
                    frontier_inv(ps, base, uni, labels.deep_view()),
                    forall|b2: Seq<char>|
                        #[trigger] base.contains(b2) ==> labels.deep_view().contains(b2),
                    forall|t: int, j: int|
                        0 <= t < done && 0 <= j < ps.len() && #[trigger] ps[j].in_group(
                            labels.deep_view()[t],
                        ) ==> acc.deep_view().contains(ps[j]),
                    acc_inv(ps, base, labels.deep_view(), acc.deep_view()),
                    forall|t: int|
                        0 <= t < members.deep_view().len() ==> ps.contains(
                            #[trigger] members.deep_view()[t],
                        ) && members.deep_view()[t].in_group(g),
                    forall|j: int|
                        0 <= j < ps.len() && #[trigger] ps[j].in_group(g)
                            ==> members.deep_view().contains(ps[j]),
                    forall|t: int|
                        0 <= t < m ==> acc.deep_view().contains(
                            #[trigger] members.deep_view()[t],
                        ),
                decreases members.len() - m,
            {
                let ghost member = members.deep_view()[m as int];
                let reqs = members[m].required_groups();
                proof {
                    assert(members[m as int]@ == member);
                    assert(reqs.deep_view() == member.required_seq());
                }
                let mut t: usize = 0;
                while t < reqs.len()
                    invariant
                        t <= reqs.len(),
                        m < members.len(),
                        reqs.deep_view() == member.required_seq(),
                        member == members.deep_view()[m as int],
                        done < labels.len(),
                        labels.deep_view()[done as int] == g,
                        reachable(ps, base, g),
                        frontier_inv(ps, base, uni, labels.deep_view()),
                        forall|b2: Seq<char>|
                            #[trigger] base.contains(b2) ==> labels.deep_view().contains(b2),
                        forall|tt: int, j: int|
                            0 <= tt < done && 0 <= j < ps.len() && #[trigger] ps[j].in_group(
                                labels.deep_view()[tt],
                            ) ==> acc.deep_view().contains(ps[j]),
                        acc_inv(ps, base, labels.deep_view(), acc.deep_view()),
                        forall|tt: int|
                            0 <= tt < members.deep_view().len() ==> ps.contains(
                                #[trigger] members.deep_view()[tt],
                            ) && members.deep_view()[tt].in_group(g),
                        forall|j: int|
                            0 <= j < ps.len() && #[trigger] ps[j].in_group(g)
                                ==> members.deep_view().contains(ps[j]),
                        forall|tt: int|
                            0 <= tt < m ==> acc.deep_view().contains(
                                #[trigger] members.deep_view()[tt],
                            ),
                        forall|u: int|
                            0 <= u < t ==> labels.deep_view().contains(
                                #[trigger] reqs.deep_view()[u],
                            ),
                    decreases reqs.len() - t,
                {
                    let ghost l = reqs.deep_view()[t as int];
                    let ghost pre = labels.deep_view();
                    proof {
                        assert(reqs[t as int]@ == l);
                        assert(ps.contains(member));
                        let jj = choose|jj: int| 0 <= jj < ps.len() && ps[jj] == member;
                        assert(ps[jj].required_seq().contains(l));
                        lemma_universe_has_requirement(ps, base, jj, l);
                        let n = choose|n: nat| reaches(ps, base, g, n);
                        lemma_reaches_step(ps, base, jj, g, l, n);
                        assert(reachable(ps, base, l));
                    }
                    push_unique(&mut labels, &reqs[t]);
                    proof {
                        if !pre.contains(l) {
                            let post = labels.deep_view();
                            assert(post == pre.push(l));
                            lemma_push_no_duplicates(pre, l);
                            assert forall|t2: int| 0 <= t2 < post.len() implies uni.contains(
                                #[trigger] post[t2],
                            ) && reachable(ps, base, post[t2]) by {
                                if t2 < pre.len() {
                                    assert(post[t2] == pre[t2]);
                                } else {
                                    assert(post[t2] == l);
                                }
                            }
                            assert forall|b2: Seq<char>| #[trigger] base.contains(b2) implies post
                                .contains(b2) by {
                                lemma_push_preserves_contains(pre, l, b2);
                            }
                            assert forall|k: int, l2: Seq<char>|
                                0 <= k < acc.deep_view().len() && #[trigger] acc.deep_view()[
                                    k
                                ].required_seq().contains(l2) implies post.contains(l2) by {
                                lemma_push_preserves_contains(pre, l, l2);
                            }
                            assert forall|u: int| 0 <= u < t + 1 implies post.contains(
                                #[trigger] reqs.deep_view()[u],
                            ) by {
                                if u < t {
                                    lemma_push_preserves_contains(pre, l, reqs.deep_view()[u]);
                                } else {
                                    assert(post[pre.len() as int] == l);
                                }
                            }
                        }
                        lemma_distinct_len_le_universe(labels.deep_view(), uni);
                    }
                    t = t + 1;
                }
                let ghost accpre = acc.deep_view();
                acc.push(members[m].clone());
                proof {
                    assert(acc.deep_view() =~= accpre.push(member));
                    assert(member.in_group(g));
                    assert(in_closure(ps, base, member));
                    assert forall|k: int| 0 <= k < acc.deep_view().len() implies ps.contains(
                        #[trigger] acc.deep_view()[k],
                    ) && in_closure(ps, base, acc.deep_view()[k]) by {
                        if k < accpre.len() {
                            assert(acc.deep_view()[k] == accpre[k]);
                        } else {
                            assert(acc.deep_view()[k] == member);
                        }
                    }
                    assert forall|k: int, l2: Seq<char>|
                        0 <= k < acc.deep_view().len() && #[trigger] acc.deep_view()[
                            k
                        ].required_seq().contains(l2) implies labels.deep_view().contains(
                        l2,
                    ) by {
                        if k < accpre.len() {
                            assert(acc.deep_view()[k] == accpre[k]);
                        } else {
                            assert(acc.deep_view()[k] == member);
                            let u = choose|u: int|
                                0 <= u < member.required_seq().len() && member.required_seq()[u]
                                    == l2;
                            assert(labels.deep_view().contains(reqs.deep_view()[u]));
                        }
                    }
                    assert forall|tt: int, j: int|
                        0 <= tt < done && 0 <= j < ps.len() && #[trigger] ps[j].in_group(
                            labels.deep_view()[tt],
                        ) implies acc.deep_view().contains(ps[j]) by {
                        assert(accpre.contains(ps[j]));
                        lemma_push_preserves_contains(accpre, member, ps[j]);
                    }
                    assert forall|tt: int| 0 <= tt < m + 1 implies acc.deep_view().contains(
                        #[trigger] members.deep_view()[tt],
                    ) by {
                        if tt < m {
                            lemma_push_preserves_contains(accpre, member, members.deep_view()[tt]);
                        } else {
                            assert(acc.deep_view()[accpre.len() as int] == member);
                        }
                    }
                }
                m = m + 1;
            }
            proof {
                assert forall|t: int, j: int|
                    0 <= t < done + 1 && 0 <= j < ps.len() && #[trigger] ps[j].in_group(
                        labels.deep_view()[t],
                    ) implies acc.deep_view().contains(ps[j]) by {
                    if t == done {
                        assert(ps[j].in_group(g));
                        assert(members.deep_view().contains(ps[j]));
                        let t2 = choose|t2: int|
                            0 <= t2 < members.deep_view().len() && members.deep_view()[t2]
                                == ps[j];
                        assert(acc.deep_view().contains(members.deep_view()[t2]));
                    }
                }
            }
            done = done + 1;
        }

        // Deduplicate the accumulator by fingerprint, keeping first occurrences.
        let mut result: Vec<Parcel> = Vec::new();
        proof {
            assert(result.deep_view() =~= Seq::<ParcelData>::empty());
        }
        let mut k: usize = 0;
        while k < acc.len()
            invariant
                k <= acc.len(),
                distinct_fingerprints(result.deep_view()),
                forall|t: int|
                    0 <= t < result.deep_view().len() ==> acc.deep_view().contains(
                        #[trigger] result.deep_view()[t],
                    ),
                forall|t: int|
                    0 <= t < k ==> has_fingerprint(
                        result.deep_view(),
                        #[trigger] acc.deep_view()[t].sha,
                    ),
            decreases acc.len() - k,
        {
            let ghost entry = acc.deep_view()[k as int];
            let dup = contains_fingerprint(&result, &acc[k].label.sha256);
            proof {
                assert(acc[k as int].label.sha256@ == entry.sha);
            }
            if !dup {
                let ghost pre = result.deep_view();
                result.push(acc[k].clone());
                proof {
                    assert(result.deep_view() =~= pre.push(entry));
                    assert forall|t: int|
                        0 <= t < result.deep_view().len() implies acc.deep_view().contains(
                        #[trigger] result.deep_view()[t],
                    ) by {
                        if t < pre.len() {
                            assert(result.deep_view()[t] == pre[t]);
                        } else {
                            assert(result.deep_view()[t] == entry);
                            assert(acc.deep_view()[k as int] == entry);
                        }
                    }
                    assert forall|i2: int, j2: int|
                        0 <= i2 < result.deep_view().len() && 0 <= j2 < result.deep_view().len()
                            && i2 != j2 implies result.deep_view()[i2].sha != result.deep_view()[
                        j2
                    ].sha by {
                        if i2 < pre.len() && j2 < pre.len() {
                        } else if i2 < pre.len() {
                            assert(!has_fingerprint(pre, entry.sha));
                            assert(result.deep_view()[j2] == entry);
                        } else {
                            assert(!has_fingerprint(pre, entry.sha));
                            assert(result.deep_view()[i2] == entry);
                        }
                    }
                    assert forall|t: int| 0 <= t < k + 1 implies has_fingerprint(
                        result.deep_view(),
                        #[trigger] acc.deep_view()[t].sha,
                    ) by {
                        if t < k {
                            let w = choose|w: int|
                                0 <= w < pre.len() && pre[w].sha == acc.deep_view()[t].sha;
                            assert(result.deep_view()[w].sha == acc.deep_view()[t].sha);
                        } else {
                            assert(result.deep_view()[pre.len() as int].sha == entry.sha);
                        }
                    }
                }
            }
            k = k + 1;
        }

        // The frontier is exhausted: every reachable label was expanded, so
        // the result covers the whole closure.
        proof {
            let labels_dv = labels.deep_view();
            let acc_dv = acc.deep_view();
            let r_dv = result.deep_view();
            assert forall|kk: int| 0 <= kk < r_dv.len() implies ps.contains(#[trigger] r_dv[kk])
                && in_closure(ps, base, r_dv[kk]) by {
                let t = choose|t: int| 0 <= t < acc_dv.len() && acc_dv[t] == r_dv[kk];
            }
            assert forall|j: int|
                0 <= j < ps.len() && in_closure(ps, base, #[trigger] ps[j]) implies has_fingerprint(
                r_dv,
                ps[j].sha,
            ) by {
                let label = choose|label: Seq<char>|
                    reachable(ps, base, label) && ps[j].in_group(label);
                let n = choose|n: nat| reaches(ps, base, label, n);
                lemma_worklist_complete(ps, base, labels_dv, acc_dv, label, n);
                let t = choose|t: int| 0 <= t < labels_dv.len() && labels_dv[t] == label;
                assert(ps[j].in_group(labels_dv[t]));
                assert(acc_dv.contains(ps[j]));
                let kk = choose|kk: int| 0 <= kk < acc_dv.len() && acc_dv[kk] == ps[j];
                assert(has_fingerprint(r_dv, acc_dv[kk].sha));
            }
            assert(is_closure_result(ps, base, r_dv));
        }
        result
    }
}

} // verus!
