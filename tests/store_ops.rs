use sledtool::erase::erase_range;
use sledtool::error::ToolError;
use sledtool::hexcodec::{from_hex, to_hex};
use sledtool::export::{tree_names, TreeExport, document_close, document_open, entry_line, export_document, tree_block, tree_close, tree_header};
use sledtool::import::{import_document, import_tree, BatchAccumulator, MAX_BATCH_SIZE};
use sledtool::query::{lookup_mode, resolve, LookupMode};

fn temp_db() -> sled::Db {
    sled::Config::new().temporary(true).open().unwrap()
}

const SAMPLE: &[u8] = b"sample";

fn sample_tree(db: &sled::Db) {
    let t = db.open_tree(SAMPLE).unwrap();
    t.insert(vec![0x10u8], vec![0xaau8]).unwrap();
    t.insert(vec![0x20u8], vec![0xbbu8]).unwrap();
    t.insert(vec![0x30u8], vec![0xccu8]).unwrap();
}

fn contents(db: &sled::Db, name: &[u8]) -> Vec<(Vec<u8>, Vec<u8>)> {
    let t = db.open_tree(name).unwrap();
    t.iter().map(|r| r.unwrap()).map(|(k, v)| (k.to_vec(), v.to_vec())).collect()
}

fn store_contents(db: &sled::Db) -> Vec<(Vec<u8>, Vec<(Vec<u8>, Vec<u8>)>)> {
    let mut names: Vec<Vec<u8>> = db.tree_names().into_iter().map(|n| n.to_vec()).collect();
    names.sort();
    names.into_iter().map(|n| {
        let c = contents(db, &n);
        (n, c)
    }).collect()
}

fn export_text(db: &sled::Db) -> String {
    let mut out = document_open();
    for (i, name) in tree_names(db).into_iter().enumerate() {
        out.push_str(&tree_header(i, &name));
        let mut lines = TreeExport::new(db, &name).unwrap();
        while let Some(line) = lines.next_line().unwrap() {
            out.push_str(&line);
        }
        out.push_str(&tree_close());
    }
    out.push_str(&document_close());
    out
}

fn parse_document(text: &str) -> Vec<(String, Vec<(String, String)>)> {
    let v: serde_json::Value = serde_json::from_str(text).unwrap();
    v.as_object().unwrap().iter().map(|(name, inner)| {
        let entries = inner.as_object().unwrap().iter()
            .map(|(k, v)| (k.clone(), v.as_str().unwrap().to_string()))
            .collect();
        (name.clone(), entries)
    }).collect()
}

fn entry(k: &str, v: &str) -> (String, String) {
    (k.to_string(), v.to_string())
}

#[test]
fn resolve_exact() {
    let mut db = temp_db();
    sample_tree(&db);
    let r = resolve(&mut db, SAMPLE, &[0x20], LookupMode::Exact, false, false).unwrap();
    assert_eq!(r, Some((vec![0x20], vec![0xbb])));
}

#[test]
fn resolve_greater_than() {
    let mut db = temp_db();
    sample_tree(&db);
    let r = resolve(&mut db, SAMPLE, &[0x20], LookupMode::GreaterThan, false, false).unwrap();
    assert_eq!(r, Some((vec![0x30], vec![0xcc])));
}

#[test]
fn resolve_less_than() {
    let mut db = temp_db();
    sample_tree(&db);
    let r = resolve(&mut db, SAMPLE, &[0x20], LookupMode::LessThan, false, false).unwrap();
    assert_eq!(r, Some((vec![0x10], vec![0xaa])));
}

#[test]
fn resolve_greater_than_last_is_not_found() {
    let mut db = temp_db();
    sample_tree(&db);
    let r = resolve(&mut db, SAMPLE, &[0x30], LookupMode::GreaterThan, false, false).unwrap();
    assert_eq!(r, None);
}

#[test]
fn resolve_less_than_first_is_not_found() {
    let mut db = temp_db();
    sample_tree(&db);
    let r = resolve(&mut db, SAMPLE, &[0x10], LookupMode::LessThan, false, false).unwrap();
    assert_eq!(r, None);
}

#[test]
fn resolve_exact_missing() {
    let mut db = temp_db();
    sample_tree(&db);
    let r = resolve(&mut db, SAMPLE, &[0x25], LookupMode::Exact, false, false).unwrap();
    assert_eq!(r, None);
}

#[test]
fn resolve_first_with_empty_key() {
    let mut db = temp_db();
    sample_tree(&db);
    let r = resolve(&mut db, SAMPLE, &[], LookupMode::Exact, true, false).unwrap();
    assert_eq!(r, Some((vec![0x10], vec![0xaa])));
}

#[test]
fn resolve_last_with_empty_key() {
    let mut db = temp_db();
    sample_tree(&db);
    let r = resolve(&mut db, SAMPLE, &[], LookupMode::Exact, false, true).unwrap();
    assert_eq!(r, Some((vec![0x30], vec![0xcc])));
}

#[test]
fn resolve_first_with_other_key_is_not_found() {
    let mut db = temp_db();
    sample_tree(&db);
    assert_eq!(resolve(&mut db, SAMPLE, &[0x20], LookupMode::Exact, true, false).unwrap(), None);
    assert_eq!(
        resolve(&mut db, SAMPLE, &[0x10], LookupMode::Exact, true, false).unwrap(),
        Some((vec![0x10], vec![0xaa]))
    );
}

#[test]
fn resolve_first_and_last_on_three_entries() {
    let mut db = temp_db();
    sample_tree(&db);
    let r = resolve(&mut db, SAMPLE, &[], LookupMode::Exact, true, true).unwrap();
    assert_eq!(r, None);
}

#[test]
fn resolve_first_and_last_on_one_entry() {
    let mut db = temp_db();
    db.open_tree(b"single").unwrap().insert(vec![0x42u8], vec![0x01u8]).unwrap();
    assert_eq!(
        resolve(&mut db, b"single", &[], LookupMode::Exact, true, true).unwrap(),
        Some((vec![0x42], vec![0x01]))
    );
    assert_eq!(resolve(&mut db, b"single", &[0x41], LookupMode::Exact, true, true).unwrap(), None);
}

#[test]
fn resolve_positional_on_empty_tree() {
    let mut db = temp_db();
    assert_eq!(resolve(&mut db, b"empty", &[], LookupMode::Exact, true, false).unwrap(), None);
    assert_eq!(resolve(&mut db, b"empty", &[], LookupMode::Exact, false, true).unwrap(), None);
    assert_eq!(resolve(&mut db, b"empty", &[], LookupMode::Exact, true, true).unwrap(), None);
    assert!(tree_names(&db).contains(&b"empty".to_vec()));
}

#[test]
fn lookup_mode_conflict() {
    assert!(matches!(lookup_mode(true, true), Err(ToolError::ConflictingModifiers)));
    assert!(matches!(lookup_mode(true, false), Ok(LookupMode::GreaterThan)));
    assert!(matches!(lookup_mode(false, true), Ok(LookupMode::LessThan)));
    assert!(matches!(lookup_mode(false, false), Ok(LookupMode::Exact)));
}

#[test]
fn erase_inclusive_range() {
    let mut db = temp_db();
    sample_tree(&db);
    let n = erase_range(&mut db, SAMPLE, &[0x10], Some(&[0x20u8][..]), false).unwrap();
    assert_eq!(n, 2);
    assert_eq!(contents(&db, SAMPLE), vec![(vec![0x30], vec![0xcc])]);
}

#[test]
fn erase_exclusive_range() {
    let mut db = temp_db();
    sample_tree(&db);
    let n = erase_range(&mut db, SAMPLE, &[0x10], Some(&[0x20u8][..]), true).unwrap();
    assert_eq!(n, 1);
    assert_eq!(contents(&db, SAMPLE), vec![(vec![0x20], vec![0xbb]), (vec![0x30], vec![0xcc])]);
}

#[test]
fn erase_single_key() {
    let mut db = temp_db();
    sample_tree(&db);
    assert_eq!(erase_range(&mut db, SAMPLE, &[0x20], None, false).unwrap(), 1);
    assert_eq!(erase_range(&mut db, SAMPLE, &[0x20], None, false).unwrap(), 0);
    assert_eq!(contents(&db, SAMPLE).len(), 2);
}

#[test]
fn erase_empty_range() {
    let mut db = temp_db();
    sample_tree(&db);
    assert_eq!(erase_range(&mut db, SAMPLE, &[0x30], Some(&[0x10u8][..]), false).unwrap(), 0);
    assert_eq!(contents(&db, SAMPLE).len(), 3);
}

#[test]
fn export_fragments() {
    assert_eq!(document_open(), "{\n");
    assert_eq!(document_close(), "}\n");
    assert_eq!(tree_close(), " }\n");
    assert_eq!(tree_header(0, &[0xab, 0x01]), " \"ab01\":{\n");
    assert_eq!(tree_header(2, b"t"), ",\"74\":{\n");
    assert_eq!(entry_line(0, &[0x10], &[0xaa]), "  \"10\": \"aa\"\n");
    assert_eq!(entry_line(1, &[0xff, 0x00], &[]), " ,\"ff00\": \"\"\n");
}

#[test]
fn export_empty_store() {
    assert_eq!(export_document(&vec![]), "{\n}\n");
}

#[test]
fn export_one_tree() {
    let trees = vec![(vec![0x01u8], vec![(vec![0x10u8], vec![0xaau8]), (vec![0x20u8], vec![0xbbu8])])];
    assert_eq!(
        export_document(&trees),
        "{\n \"01\":{\n  \"10\": \"aa\"\n ,\"20\": \"bb\"\n }\n}\n"
    );
    assert_eq!(tree_block(1, &[0x02], &vec![]), ",\"02\":{\n }\n");
}

#[test]
fn import_empty_document_is_no_op() {
    let mut db = temp_db();
    sample_tree(&db);
    let before = store_contents(&db);
    import_document(&mut db, &vec![]).unwrap();
    assert_eq!(store_contents(&db), before);
    assert_eq!(contents(&db, SAMPLE).len(), 3);
}

#[test]
fn import_empty_tree_object_is_no_op() {
    let mut db = temp_db();
    sample_tree(&db);
    import_tree(&mut db, SAMPLE, &vec![]).unwrap();
    assert_eq!(contents(&db, SAMPLE).len(), 3);
    import_tree(&mut db, b"fresh", &vec![]).unwrap();
    assert!(tree_names(&db).contains(&b"fresh".to_vec()));
    assert_eq!(contents(&db, b"fresh").len(), 0);
}

#[test]
fn round_trip_through_text() {
    let db = temp_db();
    sample_tree(&db);
    let other = db.open_tree(&[0xde, 0xad]).unwrap();
    other.insert(vec![], vec![0x00u8]).unwrap();
    other.insert(vec![0xffu8, 0xff], vec![]).unwrap();
    let text = export_document(&store_contents(&db));
    let doc = parse_document(&text);
    let mut db2 = temp_db();
    import_document(&mut db2, &doc).unwrap();
    assert_eq!(store_contents(&db2), store_contents(&db));
}

#[test]
fn round_trip_through_streamed_export() {
    let db = temp_db();
    sample_tree(&db);
    db.insert(vec![0x01u8, 0x02], vec![0x03u8]).unwrap();
    let text = export_text(&db);
    let mut db2 = temp_db();
    import_document(&mut db2, &parse_document(&text)).unwrap();
    assert_eq!(store_contents(&db2), store_contents(&db));
}

#[test]
fn import_twice_is_import_once() {
    let doc = vec![
        ("01".to_string(), vec![entry("10", "aa"), entry("20", "bb"), entry("10", "cc")]),
        ("02".to_string(), vec![entry("ff", "00")]),
    ];
    let mut once = temp_db();
    import_document(&mut once, &doc).unwrap();
    let mut twice = temp_db();
    import_document(&mut twice, &doc).unwrap();
    import_document(&mut twice, &doc).unwrap();
    assert_eq!(store_contents(&twice), store_contents(&once));
    assert_eq!(contents(&once, &[0x01]), vec![(vec![0x10], vec![0xcc]), (vec![0x20], vec![0xbb])]);
}

#[test]
fn import_batch_boundary() {
    let mut db = temp_db();
    let entries: Vec<(String, String)> = (0..4097u32)
        .map(|i| (hex::encode(i.to_be_bytes()), hex::encode([(i % 256) as u8])))
        .collect();
    import_tree(&mut db, b"big", &entries).unwrap();
    let t = db.open_tree(b"big").unwrap();
    assert_eq!(t.len(), 4097);
    assert_eq!(t.get(4096u32.to_be_bytes()).unwrap().unwrap().to_vec(), vec![0u8]);
}

#[test]
fn import_accepts_upper_case() {
    let mut db = temp_db();
    import_tree(&mut db, b"x", &vec![entry("AbCd", "EF")]).unwrap();
    assert_eq!(contents(&db, b"x"), vec![(vec![0xab, 0xcd], vec![0xef])]);
}

#[test]
fn import_document_mixed_case() {
    let mut db = temp_db();
    import_document(&mut db, &vec![("AB".to_string(), vec![entry("Cd", "eF")])]).unwrap();
    assert_eq!(contents(&db, &[0xab]), vec![(vec![0xcd], vec![0xef])]);
}

#[test]
fn import_overwrites_existing_value() {
    let mut db = temp_db();
    sample_tree(&db);
    let name = hex::encode(SAMPLE);
    import_document(&mut db, &vec![(name, vec![entry("20", "01")])]).unwrap();
    assert_eq!(
        contents(&db, SAMPLE),
        vec![(vec![0x10], vec![0xaa]), (vec![0x20], vec![0x01]), (vec![0x30], vec![0xcc])]
    );
}

#[test]
fn import_rejects_bad_key() {
    let mut db = temp_db();
    let r = import_tree(&mut db, b"x", &vec![entry("10", "aa"), entry("1g", "bb")]);
    assert!(matches!(r, Err(ToolError::InvalidEncoding)));
    assert!(!tree_names(&db).contains(&b"x".to_vec()));
}

#[test]
fn import_rejects_odd_value() {
    let mut db = temp_db();
    let r = import_tree(&mut db, b"x", &vec![entry("10", "abc")]);
    assert!(matches!(r, Err(ToolError::InvalidEncoding)));
    assert!(!tree_names(&db).contains(&b"x".to_vec()));
}

#[test]
fn import_rejects_bad_tree_name() {
    let mut db = temp_db();
    let before = store_contents(&db);
    let doc = vec![("zz".to_string(), vec![])];
    assert!(matches!(import_document(&mut db, &doc), Err(ToolError::InvalidEncoding)));
    assert_eq!(store_contents(&db), before);
}

#[test]
fn import_bad_name_keeps_earlier_trees() {
    let mut db = temp_db();
    let doc = vec![
        ("01".to_string(), vec![entry("10", "aa")]),
        ("0".to_string(), vec![entry("20", "bb")]),
    ];
    assert!(matches!(import_document(&mut db, &doc), Err(ToolError::InvalidEncoding)));
    assert_eq!(contents(&db, &[0x01]), vec![(vec![0x10], vec![0xaa])]);
}

#[test]
fn import_bad_entry_keeps_applied_batches_only() {
    let mut db = temp_db();
    let mut entries: Vec<(String, String)> = (0..5000u32)
        .map(|i| (hex::encode(i.to_be_bytes()), "00".to_string()))
        .collect();
    entries[4500] = entry("zz", "00");
    let r = import_tree(&mut db, b"x", &entries);
    assert!(matches!(r, Err(ToolError::InvalidEncoding)));
    assert_eq!(db.open_tree(b"x").unwrap().len(), MAX_BATCH_SIZE);
}

#[test]
fn accumulator_applies_when_full() {
    let mut db = temp_db();
    let mut acc = BatchAccumulator::new();
    for i in 0..(MAX_BATCH_SIZE as u32 - 1) {
        acc.add(&mut db, b"acc", &hex::encode(i.to_be_bytes()), "01").unwrap();
    }
    assert_eq!(contents(&db, b"acc").len(), 0);
    acc.add(&mut db, b"acc", "ffffffff", "02").unwrap();
    assert_eq!(contents(&db, b"acc").len(), MAX_BATCH_SIZE);
    acc.add(&mut db, b"acc", "fffffffe00", "03").unwrap();
    assert!(matches!(acc.add(&mut db, b"acc", "q", "03"), Err(ToolError::InvalidEncoding)));
    assert_eq!(contents(&db, b"acc").len(), MAX_BATCH_SIZE);
    acc.finish(&mut db, b"acc").unwrap();
    assert_eq!(contents(&db, b"acc").len(), MAX_BATCH_SIZE + 1);
}

#[test]
fn hex_encode_lowercase() {
    assert_eq!(to_hex(&[0x00, 0xab, 0xff, 0x10]), "00abff10");
    assert_eq!(to_hex(&[]), "");
}

#[test]
fn hex_decode_either_case() {
    assert_eq!(from_hex("00AbfF10").unwrap(), vec![0x00, 0xab, 0xff, 0x10]);
    assert_eq!(from_hex("").unwrap(), Vec::<u8>::new());
    assert_eq!(to_hex(&from_hex("DEADbeef").unwrap()), "deadbeef");
}

#[test]
fn hex_decode_rejects() {
    assert!(matches!(from_hex("abc"), Err(ToolError::InvalidEncoding)));
    assert!(matches!(from_hex("0g"), Err(ToolError::InvalidEncoding)));
    assert!(matches!(from_hex("\u{e9}"), Err(ToolError::InvalidEncoding)));
    assert!(matches!(from_hex(" 0"), Err(ToolError::InvalidEncoding)));
}

#[test]
fn tree_export_lines_in_key_order() {
    let db = temp_db();
    let t = db.open_tree(b"lines").unwrap();
    t.insert(vec![0x30u8], vec![0xccu8]).unwrap();
    t.insert(vec![0x10u8], vec![0xaau8]).unwrap();
    t.insert(vec![0x20u8], vec![0xbbu8]).unwrap();
    let mut lines = TreeExport::new(&db, b"lines").unwrap();
    assert_eq!(lines.next_line().unwrap(), Some("  \"10\": \"aa\"\n".to_string()));
    assert_eq!(lines.next_line().unwrap(), Some(" ,\"20\": \"bb\"\n".to_string()));
    assert_eq!(lines.next_line().unwrap(), Some(" ,\"30\": \"cc\"\n".to_string()));
    assert_eq!(lines.next_line().unwrap(), None);
    assert_eq!(lines.next_line().unwrap(), None);
}

#[test]
fn tree_export_empty_tree() {
    let db = temp_db();
    db.open_tree(b"none").unwrap();
    let mut lines = TreeExport::new(&db, b"none").unwrap();
    assert_eq!(lines.next_line().unwrap(), None);
}
