use bindle_utils::{Conditions, Invoice, InvoiceHelpers, Label, Parcel, ParcelHelpers};

fn parcel_q(
    sha: &str,
    member_of: Option<Vec<&str>>,
    requires_groups: Option<Vec<&str>>,
    annotations: Option<Vec<(&str, &str)>>,
) -> Parcel {
    let conditions = if member_of.is_none() && requires_groups.is_none() {
        None
    } else {
        Some(Conditions {
            member_of: member_of.map(|v| v.into_iter().map(|s| s.to_string()).collect()),
            requires_groups: requires_groups
                .map(|v| v.into_iter().map(|s| s.to_string()).collect()),
        })
    };
    Parcel {
        label: Label {
            sha256: sha.to_string(),
            annotations: annotations.map(|v| {
                v.into_iter().map(|(k, val)| (k.to_string(), val.to_string())).collect()
            }),
        },
        conditions,
    }
}

#[test]
fn has_annotation_present_and_absent() {
    let p = parcel_q("aa", None, None, Some(vec![("note", "x"), ("owner", "y")]));
    assert!(p.has_annotation("note"));
    assert!(p.has_annotation("owner"));
    assert!(!p.has_annotation("missing"));
}

#[test]
fn has_annotation_with_no_annotation_map() {
    let p = parcel_q("aa", None, None, None);
    assert!(!p.has_annotation("note"));
}

#[test]
fn is_member_of_matches_exactly() {
    let p = parcel_q("aa", Some(vec!["db", "web"]), None, None);
    assert!(p.is_member_of("db"));
    assert!(p.is_member_of("web"));
    assert!(!p.is_member_of("cache"));
    assert!(!p.is_member_of("d"));
}

#[test]
fn is_member_of_with_no_conditions() {
    let p = parcel_q("aa", None, None, None);
    assert!(!p.is_member_of("db"));
}

#[test]
fn is_member_of_with_no_member_list() {
    let p = parcel_q("aa", None, Some(vec!["db"]), None);
    assert!(!p.is_member_of("db"));
}

#[test]
fn required_groups_preserves_order() {
    let p = parcel_q("aa", None, Some(vec!["db", "web", "cache"]), None);
    let groups = p.required_groups();
    assert_eq!(groups, vec!["db".to_string(), "web".to_string(), "cache".to_string()]);
}

#[test]
fn required_groups_empty_when_absent() {
    let without_conditions = parcel_q("aa", None, None, None);
    assert!(without_conditions.required_groups().is_empty());
    let without_list = parcel_q("aa", Some(vec!["db"]), None, None);
    assert!(without_list.required_groups().is_empty());
}

#[test]
fn parcels_in_selects_members_in_order() {
    let inv = Invoice {
        parcel: Some(vec![
            parcel_q("a1", Some(vec!["db"]), None, None),
            parcel_q("a2", Some(vec!["web"]), None, None),
            parcel_q("a3", Some(vec!["db", "web"]), None, None),
        ]),
    };
    let members = inv.parcels_in("db");
    let shas: Vec<String> = members.iter().map(|p| p.label.sha256.clone()).collect();
    assert_eq!(shas, vec!["a1".to_string(), "a3".to_string()]);
}

#[test]
fn parcels_in_empty_invoice() {
    let inv = Invoice { parcel: None };
    assert!(inv.parcels_in("db").is_empty());
}

#[test]
fn parcels_in_keeps_parcel_content() {
    let inv = Invoice {
        parcel: Some(vec![parcel_q(
            "a1",
            Some(vec!["db"]),
            Some(vec!["cache"]),
            Some(vec![("note", "x")]),
        )]),
    };
    let members = inv.parcels_in("db");
    assert_eq!(members.len(), 1);
    assert_eq!(members[0].label.sha256, "a1");
    assert!(members[0].has_annotation("note"));
    assert!(members[0].is_member_of("db"));
    assert_eq!(members[0].required_groups(), vec!["cache".to_string()]);
}

#[test]
fn parcels_in_without_members() {
    let inv = Invoice { parcel: Some(vec![parcel_q("a1", Some(vec!["db"]), None, None)]) };
    assert!(inv.parcels_in("cache").is_empty());
}
