use mikiwame::diagnostics::coordination::{
    excluded_limitations, group_radii, group_radii_with, largest_radius, not_computed_reason, site_groups,
    species_tally,
};

fn strings(items: &[&str]) -> Vec<String> {
    items.iter().map(|s| s.to_string()).collect()
}

fn tally(items: &[&str]) -> Vec<(String, usize)> {
    species_tally(&strings(items))
        .into_iter()
        .map(|c| (c.element, c.count))
        .collect()
}

#[test]
fn only_single_site_groups_of_listed_elements_have_a_radius() {
    let elements = strings(&["Na", "Fe", "Ni", "Xx", "Bk", "Cl"]);
    let groups = vec![vec![0], vec![1, 2], vec![3], vec![4], vec![5]];
    assert_eq!(
        group_radii(&groups, &elements),
        vec![Some(166), None, None, None, Some(102)]
    );
}

#[test]
fn every_site_is_mapped_to_its_group() {
    let groups = vec![vec![0], vec![1, 3, 4], vec![2]];
    assert_eq!(site_groups(&groups, 5), vec![0, 1, 2, 1, 1]);
}

#[test]
fn a_site_in_no_group_maps_past_the_last_group() {
    let groups = vec![vec![0], vec![1, 9]];
    assert_eq!(site_groups(&groups, 3), vec![0, 1, 2]);
}

#[test]
fn disordered_sites_get_no_coordination_number() {
    assert_eq!(
        not_computed_reason(2, None, "Fe").as_deref(),
        Some(
            "site belongs to a disordered (multi-species) position; combined coordination number for disorder is not computed in v0.1"
        )
    );
}

#[test]
fn sites_without_a_radius_get_no_coordination_number() {
    assert_eq!(
        not_computed_reason(1, None, "Xx").as_deref(),
        Some(
            "no covalent radius available for element \"Xx\" (unrecognized, or outside Cordero et al. 2008's Z=1-96 coverage)"
        )
    );
}

#[test]
fn single_sites_with_a_radius_are_computed() {
    assert_eq!(not_computed_reason(1, Some(166), "Na"), None);
}

#[test]
fn species_are_tallied_in_symbol_order() {
    assert_eq!(
        tally(&["Cl", "O", "Cl", "Ca", "O", "Cl"]),
        vec![
            ("Ca".to_string(), 1),
            ("Cl".to_string(), 3),
            ("O".to_string(), 2)
        ]
    );
}

#[test]
fn a_prefix_symbol_sorts_first() {
    assert_eq!(
        tally(&["Ca", "C", "Ca"]),
        vec![("C".to_string(), 1), ("Ca".to_string(), 2)]
    );
}

#[test]
fn species_tally_counts_add_up_to_the_coordination_number() {
    let shell = strings(&["O", "O", "O", "O", "O", "O", "Ti", "Sr"]);
    let t = species_tally(&shell);
    assert_eq!(t.iter().map(|c| c.count).sum::<usize>(), shell.len());
    assert!(species_tally(&Vec::new()).is_empty());
}

#[test]
fn species_tally_matches_sorting_the_symbols() {
    let shell = strings(&["Zn", "S", "Zn", "Ag", "S", "s", "Zn"]);
    let t = tally(&["Zn", "S", "Zn", "Ag", "S", "s", "Zn"]);
    let mut sorted = shell.clone();
    sorted.sort();
    sorted.dedup();
    let symbols: Vec<String> = t.iter().map(|(e, _)| e.clone()).collect();
    assert_eq!(symbols, sorted);
    for (e, c) in &t {
        assert_eq!(*c, shell.iter().filter(|s| *s == e).count());
    }
}

#[test]
fn excluded_candidates_are_noted() {
    assert!(excluded_limitations(0).is_empty());
    assert_eq!(
        excluded_limitations(3),
        vec![
            "3 candidate neighbor(s) excluded: disordered position or unresolvable element"
                .to_string()
        ]
    );
}

#[test]
fn largest_radius_bounds_the_search() {
    assert_eq!(largest_radius(&vec![Some(66), None, Some(244), Some(160)]), 244);
    assert_eq!(largest_radius(&vec![None, None]), 0);
    assert_eq!(largest_radius(&Vec::new()), 0);
}

#[test]
fn group_radii_take_element_recognition_as_given() {
    let elements = strings(&["Na", "Cl"]);
    let groups = vec![vec![0], vec![1]];
    assert_eq!(
        group_radii_with(&groups, &elements, &vec![false, true]),
        vec![None, Some(102)]
    );
    assert_eq!(
        group_radii_with(&groups, &elements, &vec![true, true]),
        group_radii(&groups, &elements)
    );
}
