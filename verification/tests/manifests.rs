use eup_resizer::manifest::{extract_quoted, merge_manifests, parse_manifest};
use eup_resizer::text::to_chars;

#[test]
fn quoted_texts_are_found() {
    assert_eq!(
        extract_quoted(&to_chars("x 'a' , 'b c', ''")),
        vec!["a", "b c", ""]
    );
    assert_eq!(extract_quoted(&to_chars("'a' 'b")), vec!["a"]);
    assert!(extract_quoted(&to_chars("none")).is_empty());
}

#[test]
fn manifests_are_parsed() {
    let parsed = parse_manifest(
        "fx_version 'cerulean'\r\n\n  game 'gta5'  \nfx_version 'other'\nfiles { 'one' }\nfiles {\n'two', 'three'\n'four' }\ngames 'rdr3'\nclient_script 'x.lua'\n",
    );
    assert_eq!(parsed.fx_version.as_deref(), Some("fx_version 'cerulean'"));
    assert_eq!(parsed.game.as_deref(), Some("game 'gta5'"));
    assert_eq!(parsed.files_entries, vec!["one", "two", "three", "four"]);
    assert_eq!(parsed.other_lines, vec!["client_script 'x.lua'"]);
}

#[test]
fn without_manifests_there_is_a_default() {
    let (text, warning) = merge_manifests(&[None, None]);
    assert_eq!(text, "fx_version 'cerulean'\ngame 'gta5'\n");
    assert_eq!(warning, None);
}

#[test]
fn manifests_are_merged() {
    let a = "game 'gta5'\nfiles { 'a', 'b', 'a' }\nx\n".to_string();
    let b = "fx_version 'bodacious'\nfiles { 'b', 'c' }\ny\nx\n".to_string();
    let (text, warning) = merge_manifests(&[Some(a.clone()), None, Some(b)]);
    assert_eq!(
        text,
        "fx_version 'bodacious'\ngame 'gta5'\n\nfiles {\n    'a',\n    'b',\n    'c',\n}\n\nx\ny\n"
    );
    assert_eq!(
        warning.as_deref(),
        Some(
            "fxmanifest.lua: packs' manifests differ beyond boilerplate; merged (files{} blocks combined into one, other directives deduped by exact line) - review for conflicting exports/dependency/data_file directives before shipping."
        )
    );
    let (again, warning) = merge_manifests(&[Some(a.clone()), Some(a)]);
    assert_eq!(
        again,
        "fx_version 'cerulean'\ngame 'gta5'\n\nfiles {\n    'a',\n    'b',\n}\n\nx\n"
    );
    assert_eq!(warning, None);
}

#[test]
fn a_first_manifest_in_a_later_pack_is_extra() {
    let (_, warning) = merge_manifests(&[None, Some("x\n".to_string())]);
    assert!(warning.is_some());
    let (_, warning) = merge_manifests(&[Some("x\n".to_string()), None]);
    assert!(warning.is_none());
}

#[test]
fn a_merged_manifest_is_read_back() {
    let a = "fx_version 'a'\ngame 'g'\nfiles { 'one' }\nx\n".to_string();
    let b = "fx_version 'b'\nfiles { 'two' }\ny 'z'\n".to_string();
    let (text, _) = merge_manifests(&[Some(a), Some(b)]);
    let parsed = parse_manifest(&text);
    assert_eq!(parsed.fx_version.as_deref(), Some("fx_version 'a'"));
    assert_eq!(parsed.game.as_deref(), Some("game 'g'"));
    assert_eq!(parsed.files_entries, vec!["one", "two"]);
    assert_eq!(parsed.other_lines, vec!["x", "y 'z'"]);
}
