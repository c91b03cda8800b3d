use oui::{compile, lookup, OuiDb, Registry};

fn row(fields: &[&str]) -> Vec<String> {
    fields.iter().map(|f| f.to_string()).collect()
}

fn sample_db() -> OuiDb {
    let sources = vec![
        vec![
            row(&["MA-L", "000000", "XEROX CORPORATION", "M/S 105-50C WEBSTER NY US 14580"]),
            row(&["MA-L", "50A6D8", "Apple, Inc.", "1 Infinite Loop Cupertino CA US 95014"]),
            row(&["MA-L", "B84C87", "IEEE Registration Authority", ""]),
            row(&["MA-L", "8C1F64", "IEEE Registration Authority", ""]),
            row(&["MA-L", "40D855", "IEEE REGISTRATION AUTHORITY", ""]),
        ],
        vec![row(&["MA-M", "B84C874", "Blum Novotest GmbH", ""])],
        vec![row(&["MA-S", "8C1F64AFA", "DATA ELECTRONIC DEVICES, INC", ""])],
        vec![row(&["CID", "EA2701", "ACCE Technology Corp.", ""])],
        vec![row(&["IAB", "40D8550D7", "Avant Technologies", ""])],
    ];
    compile(&sources).unwrap().table
}

#[test]
fn should_lookup_entry_from_oui() {
    let db = sample_db();
    let record = lookup(&db, "00:00:00:00:00:00").unwrap();
    assert_eq!(record.organization(), "XEROX CORPORATION");
}

#[test]
fn should_ignore_case() {
    let db = sample_db();
    let record = lookup(&db, "50:a6:d8:00:00:00").unwrap();
    assert_eq!(record.organization(), "Apple, Inc.");
}

#[test]
fn should_ignore_colons() {
    let db = sample_db();
    let record = lookup(&db, "50A6D8000000").unwrap();
    assert_eq!(record.organization(), "Apple, Inc.");
}

#[test]
fn should_accept_prefix() {
    let db = sample_db();
    let record = lookup(&db, "50A6D8").unwrap();
    assert_eq!(record.organization(), "Apple, Inc.");
}

#[test]
fn should_lookup_entry_from_oui28() {
    let db = sample_db();
    let record = lookup(&db, "B8:4C:87:40:00:00").unwrap();
    assert_eq!(record.organization(), "Blum Novotest GmbH");
}

#[test]
fn should_lookup_entry_from_oui36() {
    let db = sample_db();
    let record = lookup(&db, "8C:1F:64:AF:A0:00").unwrap();
    assert_eq!(record.organization(), "DATA ELECTRONIC DEVICES, INC");
}

#[test]
fn should_lookup_entry_from_cid() {
    let db = sample_db();
    let record = lookup(&db, "EA:27:01:00:00:00").unwrap();
    assert_eq!(record.organization(), "ACCE Technology Corp.");
}

#[test]
fn should_lookup_entry_from_iab() {
    let db = sample_db();
    let record = lookup(&db, "40:D8:55:0D:70:00").unwrap();
    assert_eq!(record.organization(), "Avant Technologies");
}

#[test]
fn lower_case_bare_address_is_found() {
    let db = sample_db();
    let record = lookup(&db, "50a6d8000000").unwrap();
    assert_eq!(record.organization(), "Apple, Inc.");
    assert_eq!(record.oui(), "50A6D8");
    assert_eq!(record.registry(), Registry::MAL);
}

#[test]
fn all_forms_of_an_address_give_the_same_record() {
    let db = sample_db();
    for form in ["8C:1F:64:AF:A0:00", "8c:1f:64:af:a0:00", "8C1F64AFA000", "8c1F64aFa000"] {
        let record = lookup(&db, form).unwrap();
        assert_eq!(record.oui(), "8C1F64AFA");
        assert_eq!(record.registry(), Registry::MAS);
        assert_eq!(record.organization(), "DATA ELECTRONIC DEVICES, INC");
    }
}

#[test]
fn finer_registry_wins_over_its_coarser_prefix() {
    let db = sample_db();
    let fine = lookup(&db, "8C:1F:64:AF:A0:00").unwrap();
    let coarse = lookup(&db, "8C:1F:64:00:00:00").unwrap();
    assert_eq!(fine.organization(), "DATA ELECTRONIC DEVICES, INC");
    assert_eq!(coarse.organization(), "IEEE Registration Authority");
    assert_eq!(coarse.oui(), "8C1F64");
}

#[test]
fn seven_digit_match_is_taken_before_six_digit_one() {
    let db = sample_db();
    let record = lookup(&db, "B84C874").unwrap();
    assert_eq!(record.oui(), "B84C874");
    assert_eq!(record.registry(), Registry::MAM);
    let other = lookup(&db, "B84C875").unwrap();
    assert_eq!(other.oui(), "B84C87");
    assert_eq!(other.registry(), Registry::MAL);
}

#[test]
fn nine_digit_prefix_of_a_full_address_is_tried_first() {
    let db = sample_db();
    let record = lookup(&db, "40D8550D7123").unwrap();
    assert_eq!(record.registry(), Registry::IAB);
    let coarse = lookup(&db, "40D8550D8123").unwrap();
    assert_eq!(coarse.organization(), "IEEE REGISTRATION AUTHORITY");
}

#[test]
fn short_addresses_find_nothing() {
    let db = sample_db();
    assert!(lookup(&db, "50A6D").is_none());
    assert!(lookup(&db, "50:A6:D").is_none());
    assert!(lookup(&db, "50:a6").is_none());
    assert!(lookup(&db, "").is_none());
    assert!(lookup(&db, "00000").is_none());
}

#[test]
fn colon_and_bare_forms_differing_in_case_agree() {
    let db = sample_db();
    let a = lookup(&db, "ea:27:01:12:34:56").unwrap();
    let b = lookup(&db, "EA2701123456").unwrap();
    assert_eq!(a.oui(), b.oui());
    assert_eq!(a.organization(), "ACCE Technology Corp.");
    assert_eq!(a.registry(), Registry::CID);
}

#[test]
fn unknown_prefixes_find_nothing() {
    let db = sample_db();
    assert!(lookup(&db, "12:34:56:78:9A:BC").is_none());
    assert!(lookup(&db, "ZZ:ZZ:ZZ:00:00:00").is_none());
    assert!(lookup(&db, "G0A6D8000000").is_none());
}

#[test]
fn digits_past_the_key_do_not_matter() {
    let db = sample_db();
    let record = lookup(&db, "50A6D8ZZZ").unwrap();
    assert_eq!(record.organization(), "Apple, Inc.");
}

#[test]
fn lookup_in_an_empty_table_finds_nothing() {
    let db = OuiDb::new();
    assert_eq!(db.len(), 0);
    assert!(lookup(&db, "00:00:00:00:00:00").is_none());
}
