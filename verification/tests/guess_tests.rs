use guess_rs::candidate::{Candidate, Error};
use guess_rs::guess::{
    find_match, find_matches, Corpus, Location, Place, Plz, Street, StreetConfig, StreetFile,
};

fn strings(items: &[&str]) -> Vec<String> {
    items.iter().map(|s| s.to_string()).collect()
}

fn file(entries: &[(&str, &[&str])]) -> StreetFile {
    StreetFile::new(
        entries.iter().map(|(k, v)| (k.to_string(), strings(v))).collect(),
    )
}

#[test]
fn street_contains_numbers() {
    assert!(Street::contains_numbers("Bernstrasse 7"))
}

#[test]
fn street_does_not_contain_numbers() {
    assert!(!Street::contains_numbers("Bernstrasse"))
}

fn assert_clean_street(expected_street: &str, street_to_clean: &str) {
    let names = strings(&["Bernstrasse 7"]);
    assert_eq!(
        expected_street.to_string(),
        Street::new(street_to_clean, &names, None).unwrap().value.cleaned
    );
}

#[test]
fn clean_street() {
    assert_clean_street("bernstrasse7", "   Bernstrasse 7   ");
    assert_clean_street("bernstrassea4", "   a4 Bernstrasse   ");
    assert_clean_street("bernstrasse4", "   4 Bernstrasse   ");
    assert_clean_street("bernstrasse4a", "   Bernstrasse 4a, 5, 6   ");
    assert_clean_street("bernstrasse4a", "   Bernstrasse 4a 5 6   ");
    assert_clean_street("bernstrasse4a", "   Bernstrasse 4a-5-6   ");
    assert_clean_street("bernstrasse4a", "   Bernstrasse 4a/5/6   ");
    assert_clean_street("bernstrasse4a", "   Bernstrasse 4a. 5 6   ");
    assert_clean_street("bernstrasse4a", "  Bernstrasse 4 A fasdfs");
}

#[test]
fn street_without_digit_is_invalid_input() {
    let names = strings(&["Bernstrasse 7"]);
    assert!(matches!(
        Street::new("Bernstrasse", &names, None),
        Err(Error::InvalidInput)
    ));
}

#[test]
fn abbreviations_are_expanded() {
    let names = strings(&["Turnerstrasse 22", "Avenue de la Gare 3", "Route des Vignes 1"]);
    assert_eq!(
        Street::new("Turnerstr. 22", &names, None).unwrap().value.cleaned,
        "turnerstrasse22"
    );
    assert_eq!(
        Street::new("Av. de la Gare 3", &names, None).unwrap().value.cleaned,
        "avenuedelagare3"
    );
    assert_eq!(
        Street::new("Rt des Vignes 1", &names, None).unwrap().value.cleaned,
        "routedesvignes1"
    );
}

#[test]
fn match_with_place() {
    let places = strings(&["bercher"]);
    let names = strings(&["chemin de saint-cierges 3"]);
    let location = Location::Place(Place::new("bercher", &places));
    let f = file(&[("bercher", &["chemin de saint-cierges 3"])]);
    let street = Street::new("ch de saint-cierges 3", &names, None).unwrap();
    assert_eq!(
        find_matches(&street, &f, StreetConfig::default_with(location.clone())),
        (
            Some(Candidate::from("chemin de saint-cierges 3")),
            Some(location)
        )
    );
}

#[test]
fn match_with_plz() {
    let names = strings(&["quai du seujet 36"]);
    let location = Location::Plz(Plz::new(1201));
    let f = file(&[("1201", &["quai du seujet 36"])]);
    let street = Street::new("qu du seujet 36", &names, None).unwrap();
    let mat = find_matches(&street, &f, StreetConfig::default_with(location.clone()));
    assert_eq!(
        mat,
        (Some(Candidate::from("quai du seujet 36")), Some(location))
    );
}

#[test]
fn match_without_plz() {
    let names = strings(&["quai du seujet 36"]);
    let f = file(&[("1201", &["quai du seujet 36"])]);
    let street = Street::new("qu du seujet 36", &names, None).unwrap();
    let mat = find_matches(&street, &f, StreetConfig::default());
    assert_eq!(mat, (Some(Candidate::from("quai du seujet 36")), None));
}

#[test]
fn match_without_place() {
    let names = strings(&["chemin de saint-cierges 3"]);
    let f = file(&[("bercher", &["chemin de saint-cierges 3"])]);
    let street = Street::new("ch de saint-cierges 3", &names, None).unwrap();
    let mat = find_matches(&street, &f, StreetConfig::default());
    assert_eq!(
        mat,
        (Some(Candidate::from("chemin de saint-cierges 3")), None)
    );
}

#[test]
fn match_with_wrong_plz() {
    let names = strings(&["quai du seujet 36"]);
    let f = file(&[("1201", &["quai du seujet 36"])]);
    let street = Street::new("qu du seujet 36", &names, None).unwrap();
    let mat = find_matches(
        &street,
        &f,
        StreetConfig::default_with(Location::Plz(Plz::new(1231231))),
    );
    assert_eq!(mat, (Some(Candidate::from("quai du seujet 36")), None));
}

#[test]
fn match_wil_place() {
    let places = strings(&["Wil SG"]);
    let names = strings(&["zürcherstrasse 3"]);
    let location = Location::Place(Place::new("Wil SG", &places));
    let f = file(&[("9500", &["zürcherstrasse 3"])]);
    let street = Street::new("Zürcherstrasse 3", &names, None).unwrap();
    let mat = find_matches(&street, &f, StreetConfig::default_with(location));
    assert_eq!(mat, (Some(Candidate::from("zürcherstrasse 3")), None));
}

#[test]
fn match_pfaffikon_place() {
    let places = strings(&["Pfäffikon ZG"]);
    let names = strings(&["rigistrasse 10"]);
    let location = Location::Place(Place::new("Pfäffikon", &places));
    let f = file(&[("6353", &["rigistrasse 10"])]);
    let street = Street::new("Rigistrasse 10", &names, None).unwrap();
    let mat = find_matches(&street, &f, StreetConfig::default_with(location.clone()));
    assert_eq!(mat, (Some(Candidate::from("rigistrasse 10")), None));
    assert_eq!(location.key_string(), String::from("Pfäffikon ZG"));
}

#[test]
fn postal_code_key_is_decimal() {
    assert_eq!(Plz::new(1201).0, "1201");
    assert_eq!(Plz::new(0).0, "0");
    assert_eq!(Plz::new(950).key_string(), "950");
}

#[test]
fn place_resolution_falls_back_to_empty() {
    let places = strings(&["bercher", "bern"]);
    let p = Place::new("qqqqqqxxxxxx", &places);
    assert_eq!(p.0, "");
}

#[test]
fn all_streets_view_is_sorted_and_deduplicated() {
    let f = file(&[("a", &["s2", "s1"]), ("b", &["s1", "s3"])]);
    let (all, scoped) = f.get_streets_by(None);
    assert!(!scoped);
    assert_eq!(all, strings(&["s1", "s2", "s3"]));
}

fn seujet_corpus() -> Corpus {
    Corpus {
        names: strings(&["quai du seujet"]),
        files: vec![(
            "quai du seujet".to_string(),
            file(&[("1201", &["quai du seujet"])]),
        )],
    }
}

#[test]
fn find_match_with_postal_code() {
    let cfg = StreetConfig::new(
        Some(Location::Plz(Plz::new(1201))),
        500000,
        1,
        guess_rs::metrics::StringMetric::Levenshtein,
    )
    .unwrap();
    let m = find_match("qu du seujet 36", cfg, &seujet_corpus()).unwrap();
    assert_eq!(m.street, Some("quai du seujet".to_string()));
    assert_eq!(m.location, Some("1201".to_string()));
}

#[test]
fn find_match_without_digit_is_invalid_input() {
    let cfg = StreetConfig::new(
        Some(Location::Plz(Plz::new(1201))),
        500000,
        1,
        guess_rs::metrics::StringMetric::Levenshtein,
    )
    .unwrap();
    assert!(matches!(
        find_match("Bernstrasse", cfg, &seujet_corpus()),
        Err(Error::InvalidInput)
    ));
}

#[test]
fn find_match_with_no_overlap_is_not_found() {
    let cfg = StreetConfig::new(None, 900000, 1, guess_rs::metrics::StringMetric::Levenshtein)
        .unwrap();
    assert!(matches!(
        find_match("Qwertyuiop 77", cfg, &seujet_corpus()),
        Err(Error::NotFound)
    ));
}

#[test]
fn find_match_with_missing_file_is_a_corpus_fault() {
    let corpus = Corpus { names: strings(&["quai du seujet"]), files: vec![] };
    let cfg = StreetConfig::new(None, 500000, 1, guess_rs::metrics::StringMetric::Levenshtein)
        .unwrap();
    assert!(matches!(
        find_match("qu du seujet 36", cfg, &corpus),
        Err(Error::Io)
    ));
}

#[test]
fn street_config_rejects_out_of_scale_sensitivity() {
    assert!(matches!(
        StreetConfig::new(None, 1000001, 1, guess_rs::metrics::StringMetric::Levenshtein),
        Err(Error::InvalidInput)
    ));
}
