//! The label index: structural queries over parcels and invoices.
//!
//! Absence of an optional field is normal and reads as an empty answer,
//! never as an error.

use vstd::prelude::*;
use crate::closure::{is_closure_result, members_of};
use crate::model::{Parcel, ParcelData};

verus! {

/// Queries about a single parcel.
pub trait ParcelHelpers {
    /// The annotation keys the entry carries.
    spec fn annotation_keys(&self) -> Seq<Seq<char>>;

    /// The group labels the entry is a member of.
    spec fn member_groups(&self) -> Seq<Seq<char>>;

    /// The group labels the entry requires.
    spec fn group_requirements(&self) -> Seq<Seq<char>>;

    /// Whether an annotation named `key` is present.  An absent annotation
    /// map answers false.
    fn has_annotation(&self, key: &str) -> (r: bool)
        ensures
            r == self.annotation_keys().contains(key@),
    ;

    /// The declared required group labels, in declaration order; empty when
    /// the conditions block or its requirement list is absent.
    fn required_groups(&self) -> (r: Vec<String>)
        ensures
            r.deep_view() == self.group_requirements(),
    ;

    /// Whether the entry declares membership of `group`.  An absent
    /// conditions block or membership list answers false.
    fn is_member_of(&self, group: &str) -> (r: bool)
        ensures
            r == self.member_groups().contains(group@),
    ;
}

/// Queries about a whole invoice.
pub trait InvoiceHelpers {
    /// The parcels the invoice lists.
    spec fn parcel_seq(&self) -> Seq<ParcelData>;

    /// Every listed parcel that is a member of `group`, in invoice order.
    fn parcels_in(&self, group: &str) -> (r: Vec<Parcel>)
        ensures
            r.deep_view() == members_of(self.parcel_seq(), group@),
    ;

    /// The complete set of parcels that `parcel` transitively requires,
    /// deduplicated by fingerprint.
    fn parcels_required_by(&self, parcel: &Parcel) -> (r: Vec<Parcel>)
        ensures
            is_closure_result(self.parcel_seq(), parcel@.required_seq(), r.deep_view()),
    ;
}

/// Whether `v` holds a string whose characters equal those of `s`.
pub(crate) fn contains_string(v: &Vec<String>, s: &String) -> (r: bool)
    ensures
        r == v.deep_view().contains(s@),
{
    let mut i: usize = 0;
    while i < v.len()
        invariant
            i <= v.len(),
            forall|j: int| 0 <= j < i ==> v.deep_view()[j] != s@,
        decreases v.len() - i,
    {
        if v[i] == *s {
            proof {
                assert(v.deep_view()[i as int] == s@);
            }
            return true;
        }
        i = i + 1;
    }
    proof {
        assert(forall|j: int| 0 <= j < v.deep_view().len() ==> v.deep_view()[j] != s@);
    }
    false
}

/// Whether some pair of `pairs` has `key` as its first component.
fn contains_annotation_key(pairs: &Vec<(String, String)>, key: &String) -> (r: bool)
    ensures
        r == exists|j: int| 0 <= j < pairs.deep_view().len() && pairs.deep_view()[j].0 == key@,
{
    let mut i: usize = 0;
    while i < pairs.len()
        invariant
            i <= pairs.len(),
            forall|j: int| 0 <= j < i ==> pairs.deep_view()[j].0 != key@,
        decreases pairs.len() - i,
    {
        if pairs[i].0 == *key {
            proof {
                assert(pairs.deep_view()[i as int].0 == key@);
            }
            return true;
        }
        i = i + 1;
    }
    false
}

/// An empty list of group labels.
pub(crate) fn empty_string_vec() -> (r: Vec<String>)
    ensures
        r.deep_view() == Seq::<Seq<char>>::empty(),
{
    let r: Vec<String> = Vec::new();
    proof {
        assert(r.deep_view() =~= Seq::<Seq<char>>::empty());
    }
    r
}

impl ParcelHelpers for Parcel {
    open spec fn annotation_keys(&self) -> Seq<Seq<char>> {
        self@.annotation_keys()
    }

    open spec fn member_groups(&self) -> Seq<Seq<char>> {
        self@.member_seq()
    }

    open spec fn group_requirements(&self) -> Seq<Seq<char>> {
        self@.required_seq()
    }

    fn has_annotation(&self, key: &str) -> (r: bool) {
        match &self.label.annotations {
            Option::None => false,
            Option::Some(pairs) => {
                let k = key.to_owned();
                let found = contains_annotation_key(pairs, &k);
                proof {
                    let keys = self@.annotation_keys();
                    let dv = pairs.deep_view();
                    assert(keys == dv.map_values(|kv: (Seq<char>, Seq<char>)| kv.0));
                    if found {
                        let j = choose|j: int| 0 <= j < dv.len() && dv[j].0 == key@;
                        assert(keys[j] == key@);
                        assert(keys.contains(key@));
                    } else {
                        assert forall|j: int| 0 <= j < keys.len() implies keys[j] != key@ by {
                            assert(dv[j].0 != key@);
                        }
                    }
                }
                found
            },
        }
    }

    fn required_groups(&self) -> (r: Vec<String>) {
        match &self.conditions {
            Option::None => empty_string_vec(),
            Option::Some(c) => match &c.requires_groups {
                Option::None => empty_string_vec(),
                Option::Some(groups) => crate::model::clone_strings(groups),
            },
        }
    }

    fn is_member_of(&self, group: &str) -> (r: bool) {
        match &self.conditions {
            Option::None => false,
            Option::Some(c) => match &c.member_of {
                Option::None => false,
                Option::Some(groups) => {
                    let g = group.to_owned();
                    contains_string(groups, &g)
                },
            },
        }
    }
}

} // verus!
