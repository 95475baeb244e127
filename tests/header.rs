use std::cmp::Ordering;

use accept_language::{
    intersection, intersection_ordered, parse, ranked, ranked_intersection,
    ranked_intersection_ordered, Language, Quality,
};

const MOCK_ACCEPT_LANGUAGE: &str = "en-US, de;q=0.7, zh-Hant, jp;q=0.1";
const AVIALABLE_LANGUAGES: &[&str] = &["da", "de", "en-US", "it", "jp", "zh", "zh-Hans", "zh-Hant"];

fn weight(text: &str) -> Quality {
    Quality::numeral(text).unwrap()
}

fn names_and_weights(tags: &[Language]) -> Vec<(String, String)> {
    tags.iter()
        .map(|l| (l.name.clone(), l.quality.to_numeral()))
        .collect()
}

#[test]
fn it_creates_a_new_language_from_a_string() {
    let language = Language::new("en-US;q=0.7");
    assert_eq!(
        language,
        Language {
            name: String::from("en-US"),
            quality: weight("0.7"),
        }
    )
}

#[test]
fn it_creates_a_new_language_from_a_string_with_lowercase_country() {
    let language = Language::new("en-us;q=0.7");
    assert_eq!(
        language,
        Language {
            name: String::from("en-US"),
            quality: weight("0.7"),
        }
    )
}

#[test]
fn it_creates_a_new_language_from_a_string_with_a_default_quality() {
    let language = Language::new("en-US");
    assert_eq!(
        language,
        Language {
            name: String::from("en-US"),
            quality: weight("1.0"),
        }
    )
}

#[test]
fn it_parses_quality() {
    let quality = Language::quality_with_default("q=0.5");
    assert_eq!(quality, weight("0.5"))
}

#[test]
fn it_parses_an_invalid_quality() {
    let quality = Language::quality_with_default("q=yolo");
    assert_eq!(quality, weight("0.0"))
}

#[test]
fn it_parses_a_valid_accept_language_header() {
    let user_languages = parse(MOCK_ACCEPT_LANGUAGE);
    assert_eq!(
        user_languages,
        vec![
            String::from("en-US"),
            String::from("zh-Hant"),
            String::from("de"),
            String::from("jp"),
        ]
    )
}

#[test]
fn it_parses_an_empty_accept_language_header() {
    let user_languages = parse("");
    assert_eq!(user_languages.len(), 0)
}

#[test]
fn it_parses_an_invalid_accept_language_header() {
    let user_languages_one = parse("q");
    let user_languages_two = parse(";q");
    let user_languages_three = parse("q-");
    let user_languages_four = parse("en;q=");
    assert_eq!(user_languages_one, vec![String::from("q")]);
    assert_eq!(user_languages_two.len(), 0);
    assert_eq!(user_languages_three, vec![String::from("q-")]);
    assert_eq!(user_languages_four, vec![String::from("en")])
}

#[test]
fn it_sorts_languages_by_quality() {
    let user_languages = parse("en-US, de;q=0.1, jp;q=0.7");
    assert_eq!(
        user_languages,
        vec![
            String::from("en-US"),
            String::from("jp"),
            String::from("de"),
        ]
    )
}

#[test]
fn it_returns_language_intersection() {
    let common_languages = intersection(MOCK_ACCEPT_LANGUAGE, AVIALABLE_LANGUAGES);
    assert_eq!(
        common_languages,
        vec![
            String::from("en-US"),
            String::from("zh-Hant"),
            String::from("de"),
            String::from("jp")
        ]
    )
}

#[test]
fn it_returns_language_intersection_ordered() {
    let common_languages = intersection_ordered(MOCK_ACCEPT_LANGUAGE, AVIALABLE_LANGUAGES);
    assert_eq!(
        common_languages,
        vec![
            String::from("en-US"),
            String::from("zh-Hant"),
            String::from("de"),
            String::from("jp")
        ]
    )
}

#[test]
fn it_returns_language_intersection_with_quality() {
    let common_languages = ranked_intersection(MOCK_ACCEPT_LANGUAGE, &["en-US", "jp"]);
    assert_eq!(
        names_and_weights(&common_languages),
        vec![
            (String::from("en-US"), String::from("1")),
            (String::from("jp"), String::from("0.1")),
        ]
    )
}

#[test]
fn it_returns_language_intersection_ordered_with_quality() {
    let common_languages = ranked_intersection_ordered(MOCK_ACCEPT_LANGUAGE, &["en-US", "jp"]);
    assert_eq!(
        names_and_weights(&common_languages),
        vec![
            (String::from("en-US"), String::from("1")),
            (String::from("jp"), String::from("0.1")),
        ]
    )
}

#[test]
fn it_returns_an_empty_array_when_no_intersection() {
    let common_languages = intersection(MOCK_ACCEPT_LANGUAGE, &["fr", "en-GB"]);
    assert_eq!(common_languages.len(), 0)
}

#[test]
fn it_parses_traditional_chinese() {
    assert_eq!(parse("zh-Hant"), &["zh-Hant"]);
}

#[test]
fn it_implements_case_insensitive_equality() {
    assert_eq!(Language::new("en-US"), Language::new("en-us"));
    assert_eq!(Language::new("en-US;q=0.7"), Language::new("en-us;q=0.7"));
    assert_ne!(Language::new("en"), Language::new("en-US"));
    assert_ne!(Language::new("en;q=0.7"), Language::new("en;q=0.8"));
    assert_ne!(Language::new("en;q=0.7"), Language::new("en-US;q=0.7"));
}

#[test]
fn parse_never_returns_empty_names() {
    let names = parse(",, ;q=0.3, en ,;q=1,de;q=0.2,");
    assert_eq!(names, vec![String::from("en"), String::from("de")]);
    assert!(names.iter().all(|n| !n.is_empty()));
}

#[test]
fn parse_keeps_written_order_among_equal_weights() {
    let names = parse("a;q=0.5, b;q=0.50, c, d;q=.5, e;q=1");
    assert_eq!(names, vec!["c", "e", "a", "b", "d"]);
}

#[test]
fn parse_orders_by_exact_weight() {
    let names = parse("a;q=0.05, b;q=0.5, c;q=0.45, d;q=2, e;q=-1, f;q=10");
    assert_eq!(names, vec!["f", "d", "b", "c", "a", "e"]);
}

#[test]
fn parse_reads_two_languages() {
    assert_eq!(parse("en-US, en-GB;q=0.5"), vec!["en-US", "en-GB"]);
}

#[test]
fn parse_empty_header_is_empty() {
    assert_eq!(parse(""), Vec::<String>::new());
}

#[test]
fn parse_removes_every_space() {
    assert_eq!(parse(" e n - U S ; q = 0 . 4 , d e"), vec!["de", "en-US"]);
}

#[test]
fn parse_unreadable_weights_count_as_zero() {
    // a missing or repeated '=' and a non-numeral all give weight zero
    let names = parse("a;q, b;q=1=2, c;q=x, d;q=0.001, e;q=., f;q=-0");
    assert_eq!(names, vec!["d", "a", "b", "c", "e", "f"]);
}

#[test]
fn parse_uses_only_the_first_semicolon() {
    // the weight text is "q=0.9;x", which is no numeral
    let names = parse("a;q=0.9;x, b;q=0.1");
    assert_eq!(names, vec!["b", "a"]);
}

#[test]
fn intersection_scenario_with_three_supported() {
    assert_eq!(
        intersection("en-US, en-GB;q=0.5", &["en-US", "de", "en-GB"]),
        vec!["en-US", "en-GB"]
    );
}

#[test]
fn intersection_is_case_sensitive() {
    assert_eq!(intersection("en-US", &["en-us"]).len(), 0);
}

#[test]
fn intersection_keeps_parse_order() {
    let header = "fr;q=0.2, de, it;q=0.9, en;q=0.9";
    let parsed = parse(header);
    let common = intersection(header, &["en", "fr", "de", "es"]);
    assert_eq!(common, vec!["de", "en", "fr"]);
    let filtered: Vec<String> = parsed
        .into_iter()
        .filter(|n| ["en", "fr", "de", "es"].contains(&n.as_str()))
        .collect();
    assert_eq!(common, filtered);
}

#[test]
fn intersection_agrees_with_ordered_on_sorted_list() {
    let header = "zh-Hans;q=0.3, en-US, jp;q=0.1, da;q=0.9, xx";
    let unsorted = ["zh-Hans", "jp", "en-US", "da", "it"];
    let mut sorted = unsorted;
    sorted.sort();
    assert_eq!(
        intersection(header, &unsorted),
        intersection_ordered(header, &sorted)
    );
    assert_eq!(
        intersection_ordered(header, &sorted),
        vec!["en-US", "da", "zh-Hans", "jp"]
    );
}

#[test]
fn intersection_ordered_with_duplicates() {
    assert_eq!(
        intersection_ordered("b, a;q=0.5, c", &["a", "a", "b", "b"]),
        vec!["b", "a"]
    );
}

#[test]
fn ranked_carries_weights() {
    let tags = ranked("en-US, en-GB;q=0.5");
    assert_eq!(
        names_and_weights(&tags),
        vec![
            (String::from("en-US"), String::from("1")),
            (String::from("en-GB"), String::from("0.5")),
        ]
    );
}

#[test]
fn language_equality_ignores_case_only() {
    assert_eq!(Language::new("en-US"), Language::new("en-us"));
    assert_ne!(Language::new("en"), Language::new("en-US"));
    assert_eq!(Language::new("EN;q=0.50"), Language::new("en;q=.5"));
}

#[test]
fn language_reads_name_and_weight() {
    let tag = Language::new("de;q=0.25");
    assert_eq!(tag.name, "de");
    assert_eq!(tag.quality.to_numeral(), "0.25");
    let bare = Language::new("q");
    assert_eq!(bare.name, "q");
    assert_eq!(bare.quality.to_numeral(), "1");
    let unnamed = Language::new(";q");
    assert_eq!(unnamed.name, "");
    assert_eq!(unnamed.quality.to_numeral(), "0");
}

#[test]
fn language_compares_by_preference() {
    let high = Language::new("a;q=0.9");
    let low = Language::new("b;q=0.1");
    assert_eq!(high.cmp(&low), Ordering::Less);
    assert_eq!(low.cmp(&high), Ordering::Greater);
    assert_eq!(Language::new("c;q=0.10").cmp(&low), Ordering::Equal);
}

#[test]
fn quality_reads_numerals() {
    assert!(Quality::numeral("0.5").is_some());
    assert!(Quality::numeral("+.5").is_some());
    assert!(Quality::numeral("5.").is_some());
    assert!(Quality::numeral("").is_none());
    assert!(Quality::numeral(".").is_none());
    assert!(Quality::numeral("-").is_none());
    assert!(Quality::numeral("1.2.3").is_none());
    assert!(Quality::numeral("yolo").is_none());
    assert_eq!(weight("-0.50").to_numeral(), "-0.50");
    assert_eq!(weight("-0").to_numeral(), "-0");
    assert_eq!(weight("+007.10").to_numeral(), "007.10");
}

#[test]
fn quality_compares_exactly() {
    assert_eq!(weight("0.5").compare(&weight("0.50")), Ordering::Equal);
    assert_eq!(weight("0.05").compare(&weight("0.5")), Ordering::Less);
    assert_eq!(weight("10").compare(&weight("9.999")), Ordering::Greater);
    assert_eq!(weight("-1").compare(&weight("0")), Ordering::Less);
    assert_eq!(weight("-0").compare(&weight("0")), Ordering::Equal);
    assert_eq!(weight("-2").compare(&weight("-1.5")), Ordering::Less);
}

#[test]
fn parse_reads_weights_with_an_exponent() {
    let names = parse("a;q=5e-1, b;q=0.6, c;q=1E0, d;q=0.4, e;q=2e, f;q=.7E-0");
    assert_eq!(names, vec!["c", "f", "b", "a", "d", "e"]);
}

#[test]
fn exponent_moves_the_point() {
    assert_eq!(weight("5e-1").to_numeral(), ".5");
    assert_eq!(weight("1E0").to_numeral(), "1");
    assert_eq!(weight("1.25e1").to_numeral(), "12.5");
    assert_eq!(weight("12e+2").to_numeral(), "1200");
    assert_eq!(weight("-3.5e-3").to_numeral(), "-.0035");
    assert_eq!(weight("5e-1").compare(&weight("0.5")), Ordering::Equal);
    assert!(Quality::numeral("1e").is_none());
    assert!(Quality::numeral("e5").is_none());
    assert!(Quality::numeral("1e+").is_none());
    assert!(Quality::numeral("1e2.5").is_none());
    assert!(Quality::numeral("1e2e3").is_none());
}

#[test]
fn exponent_is_capped() {
    assert_eq!(
        weight("1e99999999999999999999").compare(&weight("1e1000")),
        Ordering::Equal
    );
    assert_eq!(weight("1e999").compare(&weight("1e1000")), Ordering::Less);
}

#[test]
fn zero_weights_keep_their_sign() {
    assert_ne!(Language::new("en;q=0"), Language::new("en;q=-0"));
    assert_ne!(weight("0"), weight("-0"));
    assert_eq!(weight("-0"), weight("-0.00"));
    assert_eq!(Language::new("en;q=0").cmp(&Language::new("de;q=-0")), Ordering::Equal);
    assert_eq!(parse("a;q=-0, b;q=0, c;q=-0.0"), vec!["a", "b", "c"]);
}
