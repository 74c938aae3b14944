use dictpipe::extract::{extract, ExtractError};
use dictpipe::tree::JsonTree;

fn obj(fields: Vec<(&str, JsonTree)>) -> JsonTree {
    JsonTree::Object(fields.into_iter().map(|(k, v)| (k.to_string(), v)).collect())
}

fn s(text: &str) -> JsonTree {
    JsonTree::Str(text.to_string())
}

fn pair(source: &str, target: &str) -> JsonTree {
    obj(vec![("source", s(source)), ("target", s(target))])
}

fn arab(header: JsonTree, translations: Vec<JsonTree>) -> JsonTree {
    obj(vec![("header", header), ("translations", JsonTree::Array(translations))])
}

fn payload(arabs: Vec<JsonTree>) -> JsonTree {
    let rom = obj(vec![("arabs", JsonTree::Array(arabs))]);
    let hit = obj(vec![("roms", JsonTree::Array(vec![rom]))]);
    JsonTree::Array(vec![obj(vec![("hits", JsonTree::Array(vec![hit]))])])
}

#[test]
fn minimal_payload_yields_one_group() {
    let root = payload(vec![arab(s("1. test"), vec![pair("a", "b")])]);
    let gm = extract(&root).unwrap();
    assert_eq!(gm.groups.len(), 1);
    assert_eq!(gm.groups[0].header, "1. test");
    assert_eq!(gm.groups[0].translations.len(), 1);
    assert_eq!(gm.groups[0].translations[0].source, "a");
    assert_eq!(gm.groups[0].translations[0].target, "b");
}

#[test]
fn empty_hits_is_reported() {
    let root = JsonTree::Array(vec![obj(vec![("hits", JsonTree::Array(vec![]))])]);
    assert_eq!(extract(&root), Err(ExtractError::EmptyHits));
}

#[test]
fn empty_roms_is_reported() {
    let hit = obj(vec![("roms", JsonTree::Array(vec![]))]);
    let root = JsonTree::Array(vec![obj(vec![("hits", JsonTree::Array(vec![hit]))])]);
    assert_eq!(extract(&root), Err(ExtractError::EmptyRoms));
}

#[test]
fn numeric_header_is_a_type_mismatch() {
    let bad = arab(JsonTree::Number("1".to_string()), vec![pair("a", "b")]);
    let root = payload(vec![bad]);
    assert_eq!(
        extract(&root),
        Err(ExtractError::TypeMismatch("arabs[].header".to_string(), "string".to_string()))
    );
}

#[test]
fn duplicate_header_keeps_only_the_later_translations() {
    let root = payload(vec![
        arab(s("1. sharp"), vec![pair("a", "b"), pair("c", "d")]),
        arab(s("2. spicy"), vec![pair("e", "f")]),
        arab(s("1. sharp"), vec![pair("g", "h")]),
    ]);
    let gm = extract(&root).unwrap();
    assert_eq!(gm.groups.len(), 2);
    assert_eq!(gm.groups[0].header, "1. sharp");
    assert_eq!(gm.groups[0].translations.len(), 1);
    assert_eq!(gm.groups[0].translations[0].source, "g");
    assert_eq!(gm.groups[0].translations[0].target, "h");
    assert_eq!(gm.groups[1].header, "2. spicy");
    assert_eq!(gm.groups[1].translations.len(), 1);
}

#[test]
fn non_array_root_is_a_type_mismatch() {
    let root = s("nope");
    assert_eq!(
        extract(&root),
        Err(ExtractError::TypeMismatch("root".to_string(), "array".to_string()))
    );
}

#[test]
fn empty_root_array_is_a_missing_field() {
    let root = JsonTree::Array(vec![]);
    assert_eq!(extract(&root), Err(ExtractError::MissingField("root[0]".to_string())));
}

#[test]
fn missing_hits_is_reported() {
    let root = JsonTree::Array(vec![obj(vec![("other", JsonTree::Null)])]);
    assert_eq!(extract(&root), Err(ExtractError::MissingField("root[0].hits".to_string())));
}

#[test]
fn missing_roms_is_reported() {
    let hit = obj(vec![("headword", s("scharf"))]);
    let root = JsonTree::Array(vec![obj(vec![("hits", JsonTree::Array(vec![hit]))])]);
    assert_eq!(extract(&root), Err(ExtractError::MissingField("hits[0].roms".to_string())));
}

#[test]
fn missing_arabs_is_reported() {
    let rom = obj(vec![("headword", s("scharf"))]);
    let hit = obj(vec![("roms", JsonTree::Array(vec![rom]))]);
    let root = JsonTree::Array(vec![obj(vec![("hits", JsonTree::Array(vec![hit]))])]);
    assert_eq!(extract(&root), Err(ExtractError::MissingField("roms[0].arabs".to_string())));
}

#[test]
fn missing_source_is_reported() {
    let bad_pair = obj(vec![("target", s("b"))]);
    let root = payload(vec![arab(s("1. test"), vec![bad_pair])]);
    assert_eq!(
        extract(&root),
        Err(ExtractError::MissingField("translations[].source".to_string()))
    );
}

#[test]
fn non_string_target_is_a_type_mismatch() {
    let bad_pair = obj(vec![("source", s("a")), ("target", JsonTree::Bool(true))]);
    let root = payload(vec![arab(s("1. test"), vec![bad_pair])]);
    assert_eq!(
        extract(&root),
        Err(ExtractError::TypeMismatch("translations[].target".to_string(), "string".to_string()))
    );
}

#[test]
fn leftmost_error_wins() {
    let root = payload(vec![
        arab(JsonTree::Null, vec![]),
        arab(s("2. ok"), vec![pair("a", "b")]),
    ]);
    assert_eq!(
        extract(&root),
        Err(ExtractError::TypeMismatch("arabs[].header".to_string(), "string".to_string()))
    );
}

#[test]
fn empty_arabs_yield_empty_meanings() {
    let root = payload(vec![]);
    let gm = extract(&root).unwrap();
    assert_eq!(gm.groups.len(), 0);
}

#[test]
fn hits_beyond_the_first_are_ignored() {
    let rom = obj(vec![("arabs", JsonTree::Array(vec![arab(s("1. test"), vec![pair("a", "b")])]))]);
    let hit = obj(vec![("roms", JsonTree::Array(vec![rom]))]);
    let second_hit = s("garbage that must never be read");
    let root = JsonTree::Array(vec![obj(vec![("hits", JsonTree::Array(vec![hit, second_hit]))])]);
    let gm = extract(&root).unwrap();
    assert_eq!(gm.groups.len(), 1);
    assert_eq!(gm.groups[0].header, "1. test");
}
