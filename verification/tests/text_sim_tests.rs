use guess_rs::candidate::{Candidate, Error, Sens, Text};
use guess_rs::metrics::{metric_score, StringMetric};
use guess_rs::text_sim::{cmp_with_arr, fast_cmp_with_arr, merge_partials, Config};

fn strings(items: &[&str]) -> Vec<String> {
    items.iter().map(|s| s.to_string()).collect()
}

#[test]
fn find_from() {
    let cfg = Config::new(Sens::new(500000).unwrap(), 1, StringMetric::JaroWinkler, None);
    let matches = cmp_with_arr(
        &strings(&["foobar", "foa", "2foo", "abcd"]),
        &Text::new("foo".to_string()),
        &cfg,
    )
    .unwrap();
    assert_eq!(Candidate::from("2foo"), matches[0]);
}

#[test]
fn find_in_file() {
    let cfg = Config::new(Sens::new(500000).unwrap(), 1, StringMetric::default(), None);
    let lines = strings(&["bahnhofstrasse", "quai du seujet", "via serafino balestra"]);
    let mat = cmp_with_arr(&lines, &Text::new("qu du seujet 36".to_string()), &cfg).unwrap();
    assert_eq!(Candidate::from("quai du seujet"), mat[0]);
}

#[test]
fn fast_find_in_file() {
    let cfg = Config::new(Sens::new(500000).unwrap(), 1, StringMetric::default(), None);
    let lines = strings(&["bahnhofstrasse", "quai du seujet", "via serafino balestra"]);
    let matches =
        fast_cmp_with_arr(&lines, &Text::new("qu du seujet 36".to_string()), &cfg).unwrap();
    assert_eq!(Candidate::from("quai du seujet"), matches[0]);
}

#[test]
fn levenshtein_score_exact() {
    // distance 3 over the longer length 7: (7 - 3) / 7 of the scale
    assert_eq!(metric_score(StringMetric::Levenshtein, "kitten", "sitting"), 571428);
    assert_eq!(metric_score(StringMetric::Levenshtein, "same", "same"), 1000000);
    assert_eq!(metric_score(StringMetric::Levenshtein, "", ""), 1000000);
    assert_eq!(metric_score(StringMetric::Levenshtein, "", "abc"), 0);
}

#[test]
fn jaro_family_scores_exact() {
    assert_eq!(metric_score(StringMetric::Jaro, "foo", "2foo"), 916666);
    assert_eq!(metric_score(StringMetric::JaroWinkler, "foo", "2foo"), 916666);
    assert_eq!(metric_score(StringMetric::JaroWinkler, "foo", "foobar"), 883333);
    assert_eq!(metric_score(StringMetric::Jaro, "abc", "abc"), 1000000);
    assert_eq!(metric_score(StringMetric::Jaro, "abc", "xyz"), 0);
}

#[test]
fn sorensen_dice_score_exact() {
    // 4 shared bigrams of 5 + 4: 8/9 of the scale
    assert_eq!(metric_score(StringMetric::SorensenDice, "ferris", "feris"), 888888);
    assert_eq!(metric_score(StringMetric::SorensenDice, "french", "quebec"), 0);
    assert_eq!(metric_score(StringMetric::SorensenDice, "", ""), 1000000);
}

#[test]
fn osa_and_damerau_scores_exact() {
    // one adjacent transposition over length 2
    assert_eq!(metric_score(StringMetric::Osa, "ab", "ba"), 500000);
    assert_eq!(metric_score(StringMetric::DamerauLevenshtein, "ab", "ba"), 500000);
    assert_eq!(metric_score(StringMetric::Osa, "ab", "bca"), 0);
    assert_eq!(metric_score(StringMetric::DamerauLevenshtein, "same", "same"), 1000000);
}

#[test]
fn threshold_is_strict_and_monotonic() {
    let target = Text::new("foo".to_string());
    let lines = strings(&["foobar"]);
    // the Jaro-Winkler score of this pair is exactly 883333
    let at = |sens: u32| {
        let cfg = Config::new(Sens::new(sens).unwrap(), 1, StringMetric::JaroWinkler, None);
        cmp_with_arr(&lines, &target, &cfg)
    };
    assert!(at(500000).is_ok());
    assert!(at(883332).is_ok());
    // a score equal to the threshold is rejected
    assert!(matches!(at(883333), Err(Error::NotFound)));
    // raising the sensitivity never turns a rejection into an acceptance
    assert!(matches!(at(900000), Err(Error::NotFound)));
}

#[test]
fn parallel_and_sequential_agree_across_worker_counts() {
    let lines = strings(&[
        "quai du seujet",
        "quai du mont-blanc",
        "rue du rhone",
        "rue de lausanne",
        "bahnhofstrasse",
        "via nassa",
        "chemin des clos",
        "avenue de la gare",
        "route de meyrin",
        "quai gustave-ador",
    ]);
    let target = Text::new("quai du seujet 3".to_string());
    let texts_of = |r: Result<Vec<Candidate>, Error>| -> Vec<String> {
        let mut v: Vec<String> = r.unwrap().into_iter().map(|c| c.text).collect();
        v.sort();
        v
    };
    let sequential = {
        let cfg = Config::new(Sens::new(300000).unwrap(), 3, StringMetric::Levenshtein, Some(1));
        texts_of(cmp_with_arr(&lines, &target, &cfg))
    };
    for workers in [1usize, 2, 8] {
        let cfg = Config::new(
            Sens::new(300000).unwrap(),
            3,
            StringMetric::Levenshtein,
            Some(workers),
        );
        let merged = texts_of(fast_cmp_with_arr(&lines, &target, &cfg));
        assert_eq!(merged, sequential);
    }
}

#[test]
fn scan_absorbs_empty_chunks() {
    // only one chunk holds anything acceptable; the others contribute nothing
    let mut lines = strings(&["zzz", "yyy", "xxx", "www"]);
    lines.push("quai du seujet".to_string());
    let cfg = Config::new(Sens::new(500000).unwrap(), 1, StringMetric::default(), Some(8));
    let target = Text::new("qu du seujet 36".to_string());
    let matches = fast_cmp_with_arr(&lines, &target, &cfg).unwrap();
    assert_eq!(Candidate::from("quai du seujet"), matches[0]);
}

#[test]
fn scan_with_no_winner_is_not_found() {
    let lines = strings(&["zzz", "yyy"]);
    let cfg = Config::new(Sens::new(900000).unwrap(), 1, StringMetric::default(), Some(2));
    let target = Text::new("quai du seujet 36".to_string());
    assert!(matches!(fast_cmp_with_arr(&lines, &target, &cfg), Err(Error::NotFound)));
}

#[test]
fn merge_partials_matches_sequential_rank() {
    let a = vec![
        Candidate { text: "one".to_string(), similarity: 900000 },
        Candidate { text: "two".to_string(), similarity: 800000 },
    ];
    let b = vec![Candidate { text: "three".to_string(), similarity: 850000 }];
    let merged = merge_partials(vec![a, b], 2).unwrap();
    assert_eq!(merged.len(), 2);
    assert_eq!(merged[0].text, "one");
    assert_eq!(merged[1].text, "three");
    assert!(matches!(merge_partials(vec![], 2), Err(Error::NotFound)));
}
