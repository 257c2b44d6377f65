//! Matching published advisories to the models a site owns.

use mlab_unifi::advisories::{matching, merge, normalize, Advisory};

/// The key of a score in the total order of floating-point numbers.
fn score_key(score: f64) -> u64 {
    let b = score.to_bits();
    if b >> 63 == 1 {
        !b
    } else {
        b | (1 << 63)
    }
}

fn advisory(id: &str, desc: &str, kev: bool, score: f64) -> Advisory {
    Advisory {
        id: id.into(),
        description: desc.into(),
        published: String::new(),
        score_key: score_key(score),
        cvss_severity: None,
        in_kev: kev,
        affected_products: Vec::new(),
    }
}

#[test]
fn a_model_is_found_however_either_side_punctuates_it() {
    let list = vec![advisory(
        "CVE-2024-54750",
        "Ubiquiti U6-LR 6.6.65 was discovered to contain a hardcoded password",
        false,
        9.8,
    )];
    assert_eq!(matching(&list, &vec!["U6-LR".into()]).len(), 1);
    assert_eq!(matching(&list, &vec!["u6lr".into()]).len(), 1);
    assert_eq!(matching(&list, &vec!["U6 LR".into()]).len(), 1);
}

#[test]
fn a_model_you_do_not_own_does_not_match() {
    let list = vec![advisory("CVE-2023-24104", "UniFi Dream Machine Pro v7.2.95", false, 9.8)];
    assert!(matching(&list, &vec!["UDR7".into()]).is_empty());
}

#[test]
fn the_product_metadata_is_searched_as_well_as_the_prose() {
    let mut a = advisory("CVE-1", "an issue", false, 5.0);
    a.affected_products = vec!["Ui Unifi dream machine pro firmware 7.2.95".into()];
    assert_eq!(matching(&vec![a], &vec!["dream machine pro".into()]).len(), 1);
}

#[test]
fn short_identifiers_are_refused_rather_than_matching_everything() {
    let list = vec![advisory("CVE-1", "Ubiquiti UniFi anything at all", false, 5.0)];
    assert!(matching(&list, &vec!["ap".into()]).is_empty(), "two letters match half the corpus");
    assert!(matching(&list, &vec![String::new()]).is_empty());
    let accented = vec![advisory("CVE-1", "ééé router", false, 5.0)];
    assert!(matching(&accented, &vec!["ééé".into()]).is_empty(), "three characters, whatever their bytes");
    assert_eq!(matching(&accented, &vec!["éééro".into()]).len(), 1);
}

#[test]
fn exploited_advisories_are_listed_before_merely_severe_ones() {
    let list = vec![
        advisory("CVE-low", "Ubiquiti UDR7 thing", false, 9.9),
        advisory("CVE-kev", "Ubiquiti UDR7 thing", true, 5.0),
    ];
    let got = matching(&list, &vec!["UDR7".into()]);
    assert_eq!(got[0].id, "CVE-kev", "known exploitation outranks a higher score");
}

#[test]
fn among_equals_the_higher_score_comes_first() {
    let list = vec![
        advisory("CVE-a", "Ubiquiti UDR7 thing", false, 5.0),
        advisory("CVE-b", "Ubiquiti UDR7 thing", false, 9.1),
    ];
    let got = matching(&list, &vec!["UDR7".into()]);
    assert_eq!(got[0].id, "CVE-b");
}

#[test]
fn normalizing_keeps_lowercase_alphanumerics_only() {
    assert_eq!(normalize("USW-Lite-8-PoE"), "uswlite8poe");
    assert_eq!(normalize("usw lite 8 poe"), "uswlite8poe");
}

#[test]
fn a_page_adds_only_advisories_not_already_held() {
    let mut held = vec![advisory("CVE-1", "x", false, 1.0)];
    merge(&mut held, vec![advisory("CVE-1", "x", false, 1.0), advisory("CVE-2", "y", false, 2.0)]);
    assert_eq!(held.len(), 2);
    assert_eq!(held[1].id, "CVE-2");
}
