use dictpipe::meanings::{GroupedMeanings, MeaningGroup, TranslationPair};
use dictpipe::present::build;

fn pair(source: &str, target: &str) -> TranslationPair {
    TranslationPair { source: source.to_string(), target: target.to_string() }
}

fn group(header: &str, translations: Vec<TranslationPair>) -> MeaningGroup {
    MeaningGroup { header: header.to_string(), translations }
}

#[test]
fn opens_with_the_header_line() {
    let meanings = GroupedMeanings {
        groups: vec![group("1. sharp", vec![pair("scharf", "острый")])],
    };
    let lines = build("scharf", &meanings);
    assert_eq!(lines[0], "The word \"scharf\" has the following meanings:");
    assert_eq!(lines[1], " ");
}

#[test]
fn one_line_pair_per_translation_pair() {
    let meanings = GroupedMeanings {
        groups: vec![
            group("1. <b>sharp</b>", vec![pair("<i>scharf</i>", "злой"), pair("a", "b")]),
            group("2. spicy", vec![pair("scharf gewürzt", "острый")]),
        ],
    };
    let lines = build("scharf", &meanings);
    assert_eq!(
        lines,
        vec![
            "The word \"scharf\" has the following meanings:".to_string(),
            " ".to_string(),
            "1. sharp".to_string(),
            "    -> Original: scharf".to_string(),
            "    Translation: злой".to_string(),
            " ".to_string(),
            "    -> Original: a".to_string(),
            "    Translation: b".to_string(),
            " ".to_string(),
            "2. spicy".to_string(),
            "    -> Original: scharf gewürzt".to_string(),
            "    Translation: острый".to_string(),
            " ".to_string(),
        ]
    );
    let originals = lines.iter().filter(|l| l.starts_with("    -> Original: ")).count();
    let translations = lines.iter().filter(|l| l.starts_with("    Translation: ")).count();
    assert_eq!(originals, 3);
    assert_eq!(translations, 3);
}

#[test]
fn empty_meanings_still_emit_the_header() {
    let meanings = GroupedMeanings { groups: vec![] };
    let lines = build("scharf", &meanings);
    assert_eq!(
        lines,
        vec!["The word \"scharf\" has the following meanings:".to_string(), " ".to_string()]
    );
}

#[test]
fn markup_in_the_term_is_stripped_too() {
    let meanings = GroupedMeanings { groups: vec![] };
    let lines = build("<b>scharf</b>", &meanings);
    assert_eq!(lines[0], "The word \"scharf\" has the following meanings:");
}
