use guess_rs::candidate::{try_sort_and_keep, Candidate, Error, Sens, Text, DEFAULT_SENS, SCALE};

#[test]
fn sensitivity_in_range() {
    assert_eq!(Sens::new(0).unwrap().0, 0);
    assert_eq!(Sens::new(SCALE).unwrap().0, SCALE);
    assert_eq!(Sens::default().0, DEFAULT_SENS);
}

#[test]
fn sensitivity_larger_than_scale() {
    assert!(matches!(Sens::new(SCALE + 1), Err(Error::InvalidInput)));
}

#[test]
fn text_builds_comparison_key() {
    let t = Text::new(String::from("AbC-dE f"));
    assert_eq!(t.init, "AbC-dE f");
    assert_eq!(t.cleaned, "abcdef");
}

#[test]
fn text_key_handles_punctuation_table() {
    let t = Text::new(String::from("  Quai du Seujet, 36;  "));
    assert_eq!(t.cleaned, "quaiduseujet36");
}

#[test]
fn normalization_is_idempotent_on_keys() {
    let t = Text::new(String::from("   Bernstrasse 7 / 9 (Hof)   "));
    let again = Text::new(t.cleaned.clone());
    assert_eq!(again.cleaned, t.cleaned);
}

fn cand(text: &str, similarity: u32) -> Candidate {
    Candidate { text: text.to_string(), similarity }
}

#[test]
fn sort_and_keep_ranks_descending_and_truncates() {
    let values = vec![cand("a", 10), cand("b", 40), cand("c", 30), cand("d", 20)];
    let kept = try_sort_and_keep(values, 2).unwrap();
    assert_eq!(kept.len(), 2);
    assert_eq!(kept[0].text, "b");
    assert_eq!(kept[1].text, "c");
    assert!(kept[0].similarity >= kept[1].similarity);
}

#[test]
fn sort_and_keep_keeps_all_when_fewer_than_limit() {
    let values = vec![cand("a", 1), cand("b", 2)];
    let kept = try_sort_and_keep(values, 10).unwrap();
    assert_eq!(kept.len(), 2);
    assert_eq!(kept[0].text, "b");
}

#[test]
fn sort_and_keep_empty_is_not_found() {
    assert!(matches!(try_sort_and_keep(Vec::new(), 3), Err(Error::NotFound)));
}

#[test]
fn candidate_equality_ignores_score() {
    assert_eq!(cand("x", 1), cand("x", 99));
    assert!(cand("x", 1) != cand("y", 1));
}
