use bindle_utils::{Conditions, Invoice, InvoiceHelpers, Label, Parcel};

fn mk_parcel(sha: &str, member_of: Option<Vec<&str>>, requires_groups: Option<Vec<&str>>) -> Parcel {
    let conditions = if member_of.is_none() && requires_groups.is_none() {
        None
    } else {
        Some(Conditions {
            member_of: member_of.map(|v| v.into_iter().map(|s| s.to_string()).collect()),
            requires_groups: requires_groups
                .map(|v| v.into_iter().map(|s| s.to_string()).collect()),
        })
    };
    Parcel {
        label: Label { sha256: sha.to_string(), annotations: None },
        conditions,
    }
}

fn sorted_shas(parcels: &[Parcel]) -> Vec<String> {
    let mut shas: Vec<String> = parcels.iter().map(|p| p.label.sha256.clone()).collect();
    shas.sort();
    shas
}

#[test]
fn resolves_direct_requirements() {
    let a = mk_parcel("sha-a", None, Some(vec!["db", "web"]));
    let inv = Invoice {
        parcel: Some(vec![
            mk_parcel("sha-b", Some(vec!["db"]), None),
            mk_parcel("sha-c", Some(vec!["web"]), None),
        ]),
    };
    let result = inv.parcels_required_by(&a);
    assert_eq!(sorted_shas(&result), vec!["sha-b".to_string(), "sha-c".to_string()]);
}

#[test]
fn resolves_transitive_requirements() {
    let a = mk_parcel("sha-a", None, Some(vec!["db", "web"]));
    let inv = Invoice {
        parcel: Some(vec![
            mk_parcel("sha-b", Some(vec!["db"]), Some(vec!["cache"])),
            mk_parcel("sha-c", Some(vec!["web"]), None),
            mk_parcel("sha-d", Some(vec!["cache"]), None),
        ]),
    };
    let result = inv.parcels_required_by(&a);
    assert_eq!(
        sorted_shas(&result),
        vec!["sha-b".to_string(), "sha-c".to_string(), "sha-d".to_string()]
    );
}

#[test]
fn diamond_requirements_deduplicate() {
    let a = mk_parcel("sha-a", None, Some(vec!["db", "web"]));
    let inv = Invoice {
        parcel: Some(vec![
            mk_parcel("sha-b", Some(vec!["db"]), Some(vec!["cache"])),
            mk_parcel("sha-c", Some(vec!["web"]), Some(vec!["cache"])),
            mk_parcel("sha-d", Some(vec!["cache"]), None),
        ]),
    };
    let result = inv.parcels_required_by(&a);
    assert_eq!(result.len(), 3);
    assert_eq!(
        sorted_shas(&result),
        vec!["sha-b".to_string(), "sha-c".to_string(), "sha-d".to_string()]
    );
}

#[test]
fn cyclic_requirements_terminate() {
    let a = mk_parcel("sha-a", None, Some(vec!["db", "web"]));
    let inv = Invoice {
        parcel: Some(vec![
            mk_parcel("sha-b", Some(vec!["db"]), Some(vec!["cache"])),
            mk_parcel("sha-c", Some(vec!["web"]), Some(vec!["cache"])),
            mk_parcel("sha-d", Some(vec!["cache"]), Some(vec!["web"])),
        ]),
    };
    let result = inv.parcels_required_by(&a);
    assert_eq!(
        sorted_shas(&result),
        vec!["sha-b".to_string(), "sha-c".to_string(), "sha-d".to_string()]
    );
}

#[test]
fn no_requirements_yield_empty_result() {
    let a = mk_parcel("sha-a", None, None);
    let inv = Invoice {
        parcel: Some(vec![mk_parcel("sha-b", Some(vec!["db"]), None)]),
    };
    assert!(inv.parcels_required_by(&a).is_empty());
}

#[test]
fn empty_invoice_yields_empty_result() {
    let a = mk_parcel("sha-a", None, Some(vec!["db", "web"]));
    let inv = Invoice { parcel: None };
    assert!(inv.parcels_required_by(&a).is_empty());
}

#[test]
fn duplicate_fingerprint_entries_collapse() {
    let a = mk_parcel("sha-a", None, Some(vec!["db"]));
    let inv = Invoice {
        parcel: Some(vec![
            mk_parcel("sha-b", Some(vec!["db"]), None),
            mk_parcel("sha-b", Some(vec!["db"]), None),
        ]),
    };
    let result = inv.parcels_required_by(&a);
    assert_eq!(result.len(), 1);
    assert_eq!(result[0].label.sha256, "sha-b");
}

#[test]
fn same_input_gives_same_fingerprints() {
    let a = mk_parcel("sha-a", None, Some(vec!["db", "web"]));
    let inv = Invoice {
        parcel: Some(vec![
            mk_parcel("sha-b", Some(vec!["db"]), Some(vec!["cache"])),
            mk_parcel("sha-c", Some(vec!["web"]), Some(vec!["cache"])),
            mk_parcel("sha-d", Some(vec!["cache"]), Some(vec!["web"])),
        ]),
    };
    let first = sorted_shas(&inv.parcels_required_by(&a));
    let second = sorted_shas(&inv.parcels_required_by(&a));
    assert_eq!(first, second);
}

#[test]
fn starting_parcel_reachable_through_cycle_is_included() {
    // The starting parcel is itself listed in the manifest and belongs to a
    // group that its own requirements lead back to, so it shows up in its
    // own closure.
    let a = mk_parcel("sha-a", Some(vec!["loop"]), Some(vec!["db"]));
    let inv = Invoice {
        parcel: Some(vec![
            a.clone(),
            mk_parcel("sha-b", Some(vec!["db"]), Some(vec!["loop"])),
        ]),
    };
    let result = inv.parcels_required_by(&a);
    assert_eq!(sorted_shas(&result), vec!["sha-a".to_string(), "sha-b".to_string()]);
}

#[test]
fn result_is_a_fixed_point() {
    let a = mk_parcel("sha-a", None, Some(vec!["db", "web"]));
    let inv = Invoice {
        parcel: Some(vec![
            mk_parcel("sha-b", Some(vec!["db"]), Some(vec!["cache"])),
            mk_parcel("sha-c", Some(vec!["web"]), Some(vec!["cache"])),
            mk_parcel("sha-d", Some(vec!["cache"]), Some(vec!["web"])),
        ]),
    };
    let result = inv.parcels_required_by(&a);
    let known = sorted_shas(&result);
    for seed in &result {
        let reseeded = inv.parcels_required_by(seed);
        for p in &reseeded {
            assert!(known.contains(&p.label.sha256));
        }
    }
}
