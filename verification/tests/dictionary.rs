use suffix_dict::complete::complete;
use suffix_dict::complete::Suggestion;
use suffix_dict::definitions::Definitions;
use suffix_dict::score::multi_levenshtein;
use suffix_dict::tree::Gst;

fn build(words: &[&str]) -> Gst {
    Gst::new(words.iter().map(|w| w.to_string()).collect())
}

fn sorted(mut v: Vec<String>) -> Vec<String> {
    v.sort();
    v
}

fn keys(suggestions: &[Suggestion]) -> Vec<String> {
    suggestions.iter().map(|s| s.key.clone()).collect()
}

#[test]
fn search_contains_every_substring_of_every_word() {
    let gst = build(&["cat", "car", "cart", "scat"]);
    for word in ["cat", "car", "cart", "scat"] {
        let n = word.len();
        for start in 0..=n {
            for end in start..=n {
                let sub = &word[start..end];
                let found = gst.search(sub.to_string());
                assert!(
                    found.contains(&word.to_string()),
                    "substring {:?} of {:?} did not find it",
                    sub,
                    word
                );
            }
        }
    }
}

#[test]
fn search_scenario_cat_car_cart_scat() {
    let gst = build(&["cat", "car", "cart", "scat"]);
    assert_eq!(
        sorted(gst.search("ca".to_string())),
        vec!["car", "cart", "cat", "scat"]
    );
    assert_eq!(gst.search("art".to_string()), vec!["cart"]);
    assert_eq!(gst.search("xyz".to_string()), Vec::<String>::new());
}

#[test]
fn search_unmatched_query_is_empty() {
    let gst = build(&["alpha", "beta"]);
    assert_eq!(gst.search("gamma".to_string()), Vec::<String>::new());
    assert_eq!(gst.search("alphab".to_string()), Vec::<String>::new());
}

#[test]
fn search_empty_query_returns_full_vocabulary() {
    let gst = build(&["cat", "car", "cart", "scat"]);
    assert_eq!(
        sorted(gst.search(String::new())),
        vec!["car", "cart", "cat", "scat"]
    );
}

#[test]
fn search_empty_vocabulary_finds_nothing() {
    let gst = build(&[]);
    assert_eq!(gst.search("a".to_string()), Vec::<String>::new());
    assert_eq!(gst.search(String::new()), Vec::<String>::new());
}

#[test]
fn search_duplicate_words_collapse() {
    let gst = build(&["cat", "cat"]);
    assert_eq!(gst.search("cat".to_string()), vec!["cat"]);
}

#[test]
fn search_repeated_gives_identical_results() {
    let gst = build(&["cat", "car", "cart", "scat"]);
    let first = gst.search("ca".to_string());
    let second = gst.search("ca".to_string());
    assert_eq!(first, second);
}

#[test]
fn multi_levenshtein_exact_values() {
    assert_eq!(multi_levenshtein("kitten", "sitting"), 3);
    assert_eq!(multi_levenshtein("cat", "cat"), 0);
    assert_eq!(multi_levenshtein("cat", "dog cart"), 1);
    assert_eq!(multi_levenshtein("abc", ""), 3);
}

fn defs_for(words: &[&str]) -> Definitions {
    let mut d = Definitions::new();
    for w in words {
        d.add_entry(w.to_string(), format!("{} (display)", w), format!("{} (meaning)", w));
    }
    d
}

#[test]
fn complete_distance_breaks_ties_among_equal_lengths() {
    // Both words have length 5 and contain "cat"; the score of "cat x" is 0
    // (its best token is "cat" itself) while "catyz" scores 2.  "catyz"
    // enters the index first, so only the ranking can put "cat x" ahead.
    let gst = build(&["catyz", "cat x"]);
    let defs = defs_for(&["catyz", "cat x"]);
    let got = complete(&gst, &defs, &"cat".to_string());
    assert_eq!(keys(&got), vec!["cat x", "catyz"]);
}

#[test]
fn complete_length_dominates_distance() {
    // "xya" (length 3, distance 2) ranks before "a bcd" (length 5, whose
    // best token "a" has distance 0): length dominates the score.
    let gst = build(&["a bcd", "xya"]);
    let defs = defs_for(&["a bcd", "xya"]);
    let got = complete(&gst, &defs, &"a".to_string());
    assert_eq!(keys(&got), vec!["xya", "a bcd"]);
}

#[test]
fn complete_orders_by_length_then_distance() {
    let gst = build(&["ba", "ab", "abcd", "bcda"]);
    let defs = defs_for(&["ba", "ab", "abcd", "bcda"]);
    let got = complete(&gst, &defs, &"a".to_string());
    let got_keys = keys(&got);
    for pair in got_keys.windows(2) {
        let (a, b) = (&pair[0], &pair[1]);
        let la = a.chars().count();
        let lb = b.chars().count();
        assert!(
            la < lb || (la == lb && multi_levenshtein("a", a) <= multi_levenshtein("a", b)),
            "ordering law broken between {:?} and {:?}",
            a,
            b
        );
    }
}

#[test]
fn complete_never_returns_more_than_100() {
    let words: Vec<String> = (0..150).map(|i| format!("a{}", i)).collect();
    let refs: Vec<&str> = words.iter().map(|w| w.as_str()).collect();
    let gst = build(&refs);
    let defs = defs_for(&refs);
    let got = complete(&gst, &defs, &"a".to_string());
    assert_eq!(got.len(), 100);
}

#[test]
fn complete_unmatched_query_is_empty() {
    let gst = build(&["cat", "car"]);
    let defs = defs_for(&["cat", "car"]);
    let got = complete(&gst, &defs, &"zzz".to_string());
    assert!(got.is_empty());
}

#[test]
fn complete_display_joins_senses_in_order() {
    let gst = build(&["cat"]);
    let mut defs = Definitions::new();
    defs.add_entry("cat".to_string(), "Cat I".to_string(), "first sense".to_string());
    defs.add_entry("cat".to_string(), "Cat II".to_string(), "second sense".to_string());
    let got = complete(&gst, &defs, &"cat".to_string());
    assert_eq!(got.len(), 1);
    assert_eq!(got[0].key, "cat");
    assert_eq!(got[0].word_display, "Cat I, Cat II");
}

#[test]
fn complete_missing_definition_displays_empty() {
    let gst = build(&["cat"]);
    let defs = Definitions::new();
    let got = complete(&gst, &defs, &"cat".to_string());
    assert_eq!(got.len(), 1);
    assert_eq!(got[0].word_display, "");
}

#[test]
fn complete_repeated_gives_identical_results() {
    let gst = build(&["cat", "car", "cart", "scat"]);
    let defs = defs_for(&["cat", "car", "cart", "scat"]);
    let first = complete(&gst, &defs, &"ca".to_string());
    let second = complete(&gst, &defs, &"ca".to_string());
    assert_eq!(keys(&first), keys(&second));
    let d1: Vec<String> = first.iter().map(|s| s.word_display.clone()).collect();
    let d2: Vec<String> = second.iter().map(|s| s.word_display.clone()).collect();
    assert_eq!(d1, d2);
}

#[test]
fn add_words_extends_index() {
    let mut gst = build(&["cat"]);
    gst.add_words(vec!["car".to_string()]);
    assert_eq!(sorted(gst.search("ca".to_string())), vec!["car", "cat"]);
}

#[test]
fn search_handles_multibyte_words() {
    let gst = build(&["שלום", "שלג"]);
    assert_eq!(sorted(gst.search("של".to_string())), vec!["שלג", "שלום"]);
    assert_eq!(gst.search("לום".to_string()), vec!["שלום"]);
    assert_eq!(gst.search("םל".to_string()), Vec::<String>::new());
}

#[test]
fn complete_orders_by_character_length_not_bytes() {
    // "של" is two characters (four bytes); "abc" is three characters
    // (three bytes).  The shorter word in characters comes first.
    let gst = build(&["abc", "של"]);
    let defs = defs_for(&["abc", "של"]);
    let got = complete(&gst, &defs, &String::new());
    assert_eq!(keys(&got), vec!["של", "abc"]);
}

#[test]
fn define_absent_word_is_explicit_miss() {
    let defs = defs_for(&["cat"]);
    assert!(defs.define(&"dog".to_string()).is_none());
}

#[test]
fn define_returns_texts_in_sense_order() {
    let mut defs = Definitions::new();
    defs.add_entry("cat".to_string(), "Cat I".to_string(), "first sense".to_string());
    defs.add_entry("cat".to_string(), "Cat II".to_string(), "second sense".to_string());
    defs.add_entry("dog".to_string(), "Dog".to_string(), "loyal".to_string());
    let got = defs.define(&"cat".to_string()).unwrap();
    assert_eq!(got, vec!["first sense", "second sense"]);
    assert_eq!(defs.define(&"dog".to_string()).unwrap(), vec!["loyal"]);
}
