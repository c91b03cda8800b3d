use oui::{clean_string, compile, get_registry, lookup, CompileError, Registry, RowError};

fn row(fields: &[&str]) -> Vec<String> {
    fields.iter().map(|f| f.to_string()).collect()
}

#[test]
fn earlier_source_wins_on_equal_keys() {
    let sources = vec![
        vec![row(&["MA-L", "001122", "First Org"])],
        vec![],
        vec![],
        vec![row(&["CID", "001122", "Second Org"])],
        vec![],
    ];
    let compiled = compile(&sources).unwrap();
    assert_eq!(compiled.table.len(), 1);
    let record = lookup(&compiled.table, "001122").unwrap();
    assert_eq!(record.organization(), "First Org");
    assert_eq!(record.registry(), Registry::MAL);
    assert_eq!(compiled.discarded.len(), 1);
    assert_eq!(compiled.discarded[0].organization(), "Second Org");
    assert_eq!(compiled.discarded[0].registry(), Registry::CID);
}

#[test]
fn duplicate_within_one_source_keeps_the_first() {
    let sources = vec![vec![
        row(&["MA-L", "AABBCC", "One"]),
        row(&["MA-L", "aabbcc", "Two"]),
        row(&["MA-L", "DDEEFF", "Three"]),
    ]];
    let compiled = compile(&sources).unwrap();
    assert_eq!(compiled.table.len(), 2);
    assert_eq!(lookup(&compiled.table, "AABBCC").unwrap().organization(), "One");
    assert_eq!(lookup(&compiled.table, "DDEEFF").unwrap().organization(), "Three");
    assert_eq!(compiled.discarded.len(), 1);
    assert_eq!(compiled.discarded[0].oui(), "AABBCC");
}

#[test]
fn keys_are_upper_cased() {
    let sources = vec![vec![row(&["MA-M", "b84c874", "Blum Novotest GmbH"])]];
    let compiled = compile(&sources).unwrap();
    let record = lookup(&compiled.table, "B8:4C:87:40:00:00").unwrap();
    assert_eq!(record.oui(), "B84C874");
}

#[test]
fn organization_names_are_cleaned_when_compiled() {
    let sources = vec![vec![row(&["MA-L", "123456", "  Acme\u{A0}Corp \n"])]];
    let compiled = compile(&sources).unwrap();
    let record = lookup(&compiled.table, "123456").unwrap();
    assert_eq!(record.organization(), "\\nAcme Corp \\n");
}

#[test]
fn missing_field_fails_the_compilation() {
    let sources = vec![
        vec![row(&["MA-L", "000000", "XEROX CORPORATION"])],
        vec![row(&["MA-M", "B84C874"])],
    ];
    let err = compile(&sources).err().unwrap();
    assert_eq!(err, CompileError { source: 1, row: 0, kind: RowError::MissingField });
}

#[test]
fn unknown_registry_fails_the_compilation() {
    let sources = vec![vec![
        row(&["MA-L", "000000", "XEROX CORPORATION"]),
        row(&["MA-L", "000001", "Other"]),
        row(&["MA-X", "000002", "Nobody"]),
    ]];
    let err = compile(&sources).err().unwrap();
    assert_eq!(err, CompileError { source: 0, row: 2, kind: RowError::UnknownRegistry });
}

#[test]
fn first_bad_row_is_reported() {
    let sources = vec![
        vec![row(&["MA-L", "000000", "XEROX CORPORATION"]), row(&["ma-l", "000001", "x"])],
        vec![row(&["MA-L"])],
    ];
    let err = compile(&sources).err().unwrap();
    assert_eq!(err, CompileError { source: 0, row: 1, kind: RowError::UnknownRegistry });
}

#[test]
fn empty_sources_compile_to_an_empty_table() {
    let sources: Vec<Vec<Vec<String>>> = vec![vec![], vec![]];
    let compiled = compile(&sources).unwrap();
    assert_eq!(compiled.table.len(), 0);
    assert!(compiled.discarded.is_empty());
}

#[test]
fn registry_codes_are_recognized() {
    assert_eq!(get_registry("MA-L"), Some(Registry::MAL));
    assert_eq!(get_registry("MA-M"), Some(Registry::MAM));
    assert_eq!(get_registry("MA-S"), Some(Registry::MAS));
    assert_eq!(get_registry("CID"), Some(Registry::CID));
    assert_eq!(get_registry("IAB"), Some(Registry::IAB));
}

#[test]
fn other_registry_codes_are_unknown() {
    assert_eq!(get_registry("ma-l"), None);
    assert_eq!(get_registry("MA-X"), None);
    assert_eq!(get_registry("MA-L "), None);
    assert_eq!(get_registry(""), None);
    assert_eq!(get_registry("IA"), None);
}

#[test]
fn clean_replaces_non_breaking_spaces() {
    assert_eq!(clean_string("Acme\u{A0}Corp"), "Acme Corp");
}

#[test]
fn clean_escapes_backslashes_and_quotes() {
    assert_eq!(clean_string("a\\b"), "a\\\\b");
    assert_eq!(clean_string("say \"hi\""), "say \\\"hi\\\"");
}

#[test]
fn clean_escapes_line_breaks() {
    assert_eq!(clean_string("line1\nline2"), "line1\\nline2");
}

#[test]
fn clean_turns_double_spaces_into_line_breaks() {
    assert_eq!(clean_string("A  B"), "A\\nB");
    assert_eq!(clean_string("A   B"), "A\\n B");
    assert_eq!(clean_string("A    B"), "A\\n\\nB");
}

#[test]
fn clean_trims_white_space() {
    assert_eq!(clean_string(" Foo \t"), "Foo");
    assert_eq!(clean_string("\u{3000}Foo\r\n"), "Foo\r\\n");
    assert_eq!(clean_string("\u{3000}Foo\r"), "Foo");
    assert_eq!(clean_string(""), "");
    assert_eq!(clean_string(" "), "");
}

#[test]
fn keys_outside_hexadecimal_are_kept_and_matched_exactly() {
    let sources = vec![vec![
        row(&["MA-L", "GGGGGG", "Odd Key"]),
        row(&["MA-L", "gggggg", "Odd Key Again"]),
        row(&["MA-L", "0123456789AB", "Long Key"]),
        row(&["MA-L", "ABCDEF", "Plain Key"]),
    ]];
    let compiled = compile(&sources).unwrap();
    assert_eq!(compiled.table.len(), 3);
    assert_eq!(compiled.discarded.len(), 1);
    assert_eq!(compiled.discarded[0].organization(), "Odd Key Again");
    let odd = lookup(&compiled.table, "gg:gg:gg:00:00:00").unwrap();
    assert_eq!(odd.organization(), "Odd Key");
    assert_eq!(lookup(&compiled.table, "abcdef").unwrap().organization(), "Plain Key");
    assert!(lookup(&compiled.table, "0123456789AB").is_none());
}
