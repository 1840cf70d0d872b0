//! The data model: invoices (manifests) and the parcels they list.
//!
//! An invoice holds an optional sequence of parcels.  A parcel is identified
//! by the content fingerprint in its label, may carry a set of annotations,
//! and may declare group membership and group requirements through an
//! optional conditions block.  All queries treat an absent optional field as
//! empty, never as an error.

use vstd::prelude::*;

verus! {

/// Ghost projection of a parcel: everything the queries read, as sequences.
pub ghost struct ParcelData {
    /// The content fingerprint that identifies the parcel.
    pub sha: Seq<char>,
    /// Annotation key/value pairs, if an annotation map is present.
    pub annotations: Option<Seq<(Seq<char>, Seq<char>)>>,
    /// Group labels the parcel is a member of, if declared.
    pub member_of: Option<Seq<Seq<char>>>,
    /// Group labels the parcel requires, if declared.
    pub groups_required: Option<Seq<Seq<char>>>,
}

impl ParcelData {
    /// The required group labels, with an absent field read as empty.
    pub open spec fn required_seq(self) -> Seq<Seq<char>> {
        match self.groups_required {
            Option::Some(gs) => gs,
            Option::None => Seq::empty(),
        }
    }

    /// The membership group labels, with an absent field read as empty.
    pub open spec fn member_seq(self) -> Seq<Seq<char>> {
        match self.member_of {
            Option::Some(gs) => gs,
            Option::None => Seq::empty(),
        }
    }

    /// Whether the parcel belongs to `group`.
    pub open spec fn in_group(self, group: Seq<char>) -> bool {
        self.member_seq().contains(group)
    }

    /// The annotation keys, with an absent map read as empty.
    pub open spec fn annotation_keys(self) -> Seq<Seq<char>> {
        match self.annotations {
            Option::Some(ps) => ps.map_values(|kv: (Seq<char>, Seq<char>)| kv.0),
            Option::None => Seq::empty(),
        }
    }
}

/// Ghost projection of an invoice.
pub ghost struct InvoiceData {
    /// The listed parcels, or none if the invoice has no parcel field.
    pub parcel: Option<Seq<ParcelData>>,
}

impl InvoiceData {
    /// The listed parcels, with an absent field read as empty.
    pub open spec fn parcel_seq(self) -> Seq<ParcelData> {
        match self.parcel {
            Option::Some(ps) => ps,
            Option::None => Seq::empty(),
        }
    }
}

/// The metadata of a parcel: its fingerprint and its annotations.
pub struct Label {
    /// Content fingerprint; fingerprint equality is the sole identity
    /// criterion for parcels.
    pub sha256: String,
    /// Optional annotation key/value pairs.
    pub annotations: Option<Vec<(String, String)>>,
}

/// The optional conditions block of a parcel: group membership and
/// group requirements.
pub struct Conditions {
    /// Group labels this parcel is a member of.
    pub member_of: Option<Vec<String>>,
    /// Group labels this parcel requires.
    pub requires_groups: Option<Vec<String>>,
}

/// One artifact entry of an invoice.
pub struct Parcel {
    /// The parcel's metadata.
    pub label: Label,
    /// The parcel's conditions block, if any.
    pub conditions: Option<Conditions>,
}

/// A manifest: the top-level record listing the parcels of one package.
pub struct Invoice {
    /// The listed parcels, or none.
    pub parcel: Option<Vec<Parcel>>,
}

impl View for Parcel {
    type V = ParcelData;

    open spec fn view(&self) -> ParcelData {
        ParcelData {
            sha: self.label.sha256.view(),
            annotations: self.label.annotations.deep_view(),
            member_of: match self.conditions {
                Option::Some(c) => c.member_of.deep_view(),
                Option::None => Option::None,
            },
            groups_required: match self.conditions {
                Option::Some(c) => c.requires_groups.deep_view(),
                Option::None => Option::None,
            },
        }
    }
}

impl DeepView for Parcel {
    type V = ParcelData;

    open spec fn deep_view(&self) -> ParcelData {
        self.view()
    }
}

impl View for Invoice {
    type V = InvoiceData;

    open spec fn view(&self) -> InvoiceData {
        InvoiceData { parcel: self.parcel.deep_view() }
    }
}

/// Copies a vector of strings, preserving its view.
pub fn clone_strings(v: &Vec<String>) -> (r: Vec<String>)
    ensures
        r.deep_view() == v.deep_view(),
{
    let mut r: Vec<String> = Vec::new();
    let mut i: usize = 0;
    while i < v.len()
        invariant
            i <= v.len(),
            r.len() == i,
            forall|j: int| 0 <= j < i ==> r.deep_view()[j] == v.deep_view()[j],
        decreases v.len() - i,
    {
        r.push(v[i].clone());
        i = i + 1;
    }
    proof {
        assert(r.deep_view() =~= v.deep_view());
    }
    r
}

/// Copies a vector of string pairs, preserving its view.
pub fn clone_pairs(v: &Vec<(String, String)>) -> (r: Vec<(String, String)>)
    ensures
        r.deep_view() == v.deep_view(),
{
    let mut r: Vec<(String, String)> = Vec::new();
    let mut i: usize = 0;
    while i < v.len()
        invariant
            i <= v.len(),
            r.len() == i,
            forall|j: int| 0 <= j < i ==> r.deep_view()[j] == v.deep_view()[j],
        decreases v.len() - i,
    {
        r.push((v[i].0.clone(), v[i].1.clone()));
        i = i + 1;
    }
    proof {
        assert(r.deep_view() =~= v.deep_view());
    }
    r
}

impl Clone for Label {
    fn clone(&self) -> (res: Self)
        ensures
            res.sha256@ == self.sha256@,
            res.annotations.deep_view() == self.annotations.deep_view(),
    {
        Label {
            sha256: self.sha256.clone(),
            annotations: match &self.annotations {
                Option::Some(v) => Option::Some(clone_pairs(v)),
                Option::None => Option::None,
            },
        }
    }
}

impl Clone for Conditions {
    fn clone(&self) -> (res: Self)
        ensures
            res.member_of.deep_view() == self.member_of.deep_view(),
            res.requires_groups.deep_view() == self.requires_groups.deep_view(),
    {
        Conditions {
            member_of: match &self.member_of {
                Option::Some(v) => Option::Some(clone_strings(v)),
                Option::None => Option::None,
            },
            requires_groups: match &self.requires_groups {
                Option::Some(v) => Option::Some(clone_strings(v)),
                Option::None => Option::None,
            },
        }
    }
}

impl Clone for Parcel {
    fn clone(&self) -> (res: Self)
        ensures
            res@ == self@,
    {
        Parcel {
            label: self.label.clone(),
            conditions: match &self.conditions {
                Option::Some(c) => Option::Some(c.clone()),
                Option::None => Option::None,
            },
        }
    }
}

} // verus!
