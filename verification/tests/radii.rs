use std::collections::HashSet;

use mikiwame::radii::{covalent_radius_centiangstrom, radius_table, RADIUS_TABLE_VERSION};

fn covalent_radius_angstrom(symbol: &str) -> Option<f64> {
    covalent_radius_centiangstrom(symbol).map(|c| f64::from(c) / 100.0)
}

#[test]
fn spot_check_known_values() {
    assert_eq!(covalent_radius_angstrom("H"), Some(0.31));
    assert_eq!(covalent_radius_angstrom("O"), Some(0.66));
    assert_eq!(covalent_radius_angstrom("Ti"), Some(1.60));
    assert_eq!(covalent_radius_angstrom("Cs"), Some(2.44));
    assert_eq!(covalent_radius_angstrom("Cm"), Some(1.69));
}

#[test]
fn spot_check_known_values_in_centiangstrom() {
    assert_eq!(covalent_radius_centiangstrom("H"), Some(31));
    assert_eq!(covalent_radius_centiangstrom("C"), Some(76));
    assert_eq!(covalent_radius_centiangstrom("Fe"), Some(132));
    assert_eq!(covalent_radius_centiangstrom("Cl"), Some(102));
}

#[test]
fn unrecognized_or_out_of_coverage_symbols_are_none_not_a_default() {
    assert_eq!(covalent_radius_angstrom("Xx"), None);
    assert_eq!(covalent_radius_angstrom("Bk"), None);
}

#[test]
fn symbols_are_case_sensitive() {
    assert_eq!(covalent_radius_centiangstrom("na"), None);
    assert_eq!(covalent_radius_centiangstrom("NA"), None);
    assert_eq!(covalent_radius_centiangstrom(""), None);
}

#[test]
fn table_has_exactly_one_entry_per_element_z1_through_z96() {
    let table = radius_table();
    assert_eq!(table.len(), 96);
    let mut seen = HashSet::new();
    for (symbol, radius) in &table {
        assert!(seen.insert(*symbol), "duplicate entry for {symbol}");
        assert!(*radius > 0, "bad radius for {symbol}");
    }
    assert_eq!(table[0].0, "H");
    assert_eq!(table[95].0, "Cm");
}

#[test]
fn every_table_entry_is_found_by_lookup() {
    for (symbol, radius) in radius_table() {
        assert_eq!(covalent_radius_centiangstrom(symbol), Some(radius));
    }
}

#[test]
fn expected_distance_from_covalent_radii_is_unsafe_for_ionic_bonds() {
    let a = 3.905_f64;
    let ti_o_observed = a / 2.0;
    let ti_o_covalent_radius_sum =
        covalent_radius_angstrom("Ti").unwrap() + covalent_radius_angstrom("O").unwrap();
    assert!(
        ti_o_observed < ti_o_covalent_radius_sum,
        "the perovskite Ti-O distance lies inside the Ti+O covalent radius sum"
    );
}

#[test]
fn radius_table_version_is_named() {
    assert_eq!(RADIUS_TABLE_VERSION, "cordero-2008-table2");
}
