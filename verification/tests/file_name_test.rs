use lsm_core::db::file_name::{sst_table_file_name, table_file_name};
use lsm_core::util::writable_file::{basename_start, is_manifest};

#[test]
fn test_table_file_name() {
    let db_name = "test";
    let number = 1001;
    let result = table_file_name(&db_name.to_string(), number);
    assert_eq!(result, "test/001001.ldb");
}

#[test]
fn test_sst_table_file_name() {
    assert_eq!(sst_table_file_name(&"db".to_string(), 7), "db/000007.sst");
    assert_eq!(table_file_name(&"db".to_string(), 12345678), "db/12345678.ldb");
    assert_eq!(table_file_name(&"".to_string(), 0), "/000000.ldb");
}

#[test]
fn test_is_manifest() {
    assert!(is_manifest("MANIFEST-000001"));
    assert!(is_manifest("/tmp/db/MANIFEST-000001"));
    assert!(is_manifest("db/MANIFEST"));
    assert!(!is_manifest("db/MANIFES"));
    assert!(!is_manifest("MANIFEST/000001.ldb"));
    assert!(!is_manifest("db/manifest-1"));
    assert!(!is_manifest(""));
    assert_eq!(basename_start(b"a/b/c"), 4);
    assert_eq!(basename_start(b"abc"), 0);
    assert_eq!(basename_start(b"abc/"), 4);
}
