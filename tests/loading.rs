use kankyo::env::Environment;
use kankyo::utils::{self, ParsedLine};
use kankyo::{key, load_from_reader, load_from_str, snapshot, unload_from_reader, unload_from_str};
use std::io::{Cursor, Read};

fn lines(pairs: &[(&str, &str)]) -> Vec<ParsedLine> {
    pairs.iter().map(|(k, v)| (k.to_string(), v.to_string())).collect()
}

struct Failing;

impl Read for Failing {
    fn read(&mut self, _buf: &mut [u8]) -> std::io::Result<usize> {
        Err(std::io::Error::new(std::io::ErrorKind::Other, "broken source"))
    }
}

#[test]
fn lib_test_key() {
    let mut env = Environment::new();
    utils::set_variables(&mut env, &lines(&[("foo", "1")]), false);
    assert!(key(&env, "foo").is_some());
    utils::unload(&mut env, &["foo"]);
}

#[test]
fn lib_test_reader_loaders() {
    let mut env = Environment::new();
    let mut cursor = Cursor::new(b"A=B\nC=D");

    load_from_reader(&mut cursor, &mut env).unwrap();

    cursor.set_position(0);
    unload_from_reader(&mut cursor, &mut env).unwrap();
}

#[test]
fn lib_test_snapshot() {
    let mut env = Environment::new();
    utils::set_variables(&mut env, &lines(&[("A", "B")]), false);
    let snap = snapshot(&env);
    assert!(snap.contains_key("A"));
}

#[test]
fn entry_test_key() {
    let mut env = Environment::new();
    utils::set_variables(&mut env, &lines(&[("foo", "1")]), false);
    assert!(key(&env, "foo").is_some());
    utils::unload(&mut env, &["foo"]);
}

#[test]
fn entry_test_reader_loaders() {
    let mut env = Environment::new();
    let mut cursor = Cursor::new(b"A=B\nC=D");

    load_from_reader(&mut cursor, &mut env).unwrap();

    cursor.set_position(0);
    unload_from_reader(&mut cursor, &mut env).unwrap();
}

#[test]
fn snapshot_test_snapshot() {
    let mut env = Environment::new();
    utils::set_variables(&mut env, &lines(&[("A", "B")]), false);
    let snap = snapshot(&env);
    assert!(snap.contains_key("A"));
    let snap_length = snap.len();

    utils::set_variables(&mut env, &lines(&[("C", "D")]), false);

    assert_eq!(snap.len(), snap_length);

    assert_eq!(snapshot(&env).len(), snap_length + 1);
}

#[test]
fn test_utils() {
    let mut env = Environment::new();
    utils::set_variables(&mut env, &lines(&[("foo", "1"), ("bar", "2")]), true);
    assert!(env.get("foo").is_some());

    utils::unload(&mut env, &["foo"]);
    assert!(env.get("bar").is_some());
    utils::unload(&mut env, &["bar"]);
    assert!(env.get("bar").is_none());

    env.set("foo", "1");
    assert!(env.get("foo").is_some());

    utils::unload(&mut env, &["foo"]);
    assert!(env.get("foo").is_none());

    env.set("foo", "1");
    assert!(env.get("foo").is_some());

    utils::unload_from_parsed_lines(&mut env, &lines(&[("foo", "1")]));
    assert!(env.get("foo").is_none());
}

#[test]
fn test_unload_from_reader() {
    let mut env = Environment::new();
    let mut source = Cursor::new("FOO=bar\nBAR=baz".to_owned().into_bytes());

    load_from_reader(&mut source, &mut env).unwrap();
    assert!(key(&env, "FOO").is_some());

    source.set_position(0);

    unload_from_reader(&mut source, &mut env).unwrap();
    assert!(key(&env, "FOO").is_none());
}

#[test]
fn set_without_overwrite_keeps_existing_value() {
    let mut env = Environment::new();
    utils::set_variables(&mut env, &lines(&[("foo", "1")]), false);
    assert_eq!(key(&env, "foo"), Some("1".to_string()));

    let mut env = Environment::new();
    env.set("foo", "X");
    utils::set_variables(&mut env, &lines(&[("foo", "1")]), false);
    assert_eq!(key(&env, "foo"), Some("X".to_string()));
}

#[test]
fn set_with_overwrite_replaces_value() {
    let mut env = Environment::new();
    env.set("foo", "X");
    utils::set_variables(&mut env, &lines(&[("foo", "1")]), true);
    assert_eq!(key(&env, "foo"), Some("1".to_string()));
    assert_eq!(env.len(), 1);
}

#[test]
fn duplicate_keys_first_or_last_wins() {
    let pairs = lines(&[("K", "first"), ("K", "second")]);
    let mut env = Environment::new();
    utils::set_variables(&mut env, &pairs, false);
    assert_eq!(key(&env, "K"), Some("first".to_string()));

    let mut env = Environment::new();
    utils::set_variables(&mut env, &pairs, true);
    assert_eq!(key(&env, "K"), Some("second".to_string()));
}

#[test]
fn unload_absent_key_changes_nothing() {
    let mut env = Environment::new();
    env.set("A", "1");
    utils::unload(&mut env, &["missing"]);
    assert_eq!(env.len(), 1);
    assert_eq!(key(&env, "A"), Some("1".to_string()));
    utils::unload(&mut env, &["A"]);
    utils::unload(&mut env, &["A"]);
    assert_eq!(env.len(), 0);
}

#[test]
fn set_then_unload_restores_other_entries() {
    let mut env = Environment::new();
    env.set("KEEP", "yes");
    env.set("X", "old");
    let parsed = utils::parse_lines("X=1\nY=2\nZ=3");
    utils::set_variables(&mut env, &parsed, true);
    assert_eq!(env.len(), 4);
    utils::unload_from_parsed_lines(&mut env, &parsed);
    assert_eq!(env.len(), 1);
    assert_eq!(key(&env, "KEEP"), Some("yes".to_string()));
    assert!(key(&env, "X").is_none());
    assert!(key(&env, "Y").is_none());
    assert!(key(&env, "Z").is_none());
}

#[test]
fn snapshot_holds_values() {
    let mut env = Environment::new();
    utils::set_variables(&mut env, &lines(&[("A", "B")]), true);
    let snap = snapshot(&env);
    assert_eq!(snap.get("A"), Some("B".to_string()));
    env.set("A", "changed");
    assert_eq!(snap.get("A"), Some("B".to_string()));
    let mut entries = snap.vars();
    entries.sort();
    assert_eq!(entries, vec![("A".to_string(), "B".to_string())]);
}

#[test]
fn load_from_str_overwrites() {
    let mut env = Environment::new();
    env.set("DEBUG", "off");
    load_from_str(&mut env, "DEBUG=info\nDB_HOST=127.0.0.1 # comment\n\n# note\n");
    assert_eq!(key(&env, "DEBUG"), Some("info".to_string()));
    assert_eq!(key(&env, "DB_HOST"), Some("127.0.0.1".to_string()));
    assert_eq!(env.len(), 2);
}

#[test]
fn unload_from_str_removes_keys() {
    let mut env = Environment::new();
    env.set("A", "1");
    env.set("B", "2");
    env.set("C", "3");
    unload_from_str(&mut env, "A=x\n#B=y\nC");
    assert_eq!(env.len(), 2);
    assert!(key(&env, "A").is_none());
    assert_eq!(key(&env, "B"), Some("2".to_string()));
}

#[test]
fn reader_contents_are_loaded() {
    let mut env = Environment::new();
    let mut source = Cursor::new(" name = kankyo # crate\nversion=2".as_bytes());
    load_from_reader(&mut source, &mut env).unwrap();
    assert_eq!(key(&env, "name"), Some("kankyo".to_string()));
    assert_eq!(key(&env, "version"), Some("2".to_string()));
}

#[test]
fn read_failure_leaves_table_unchanged() {
    let mut env = Environment::new();
    env.set("A", "1");
    assert!(load_from_reader(&mut Failing, &mut env).is_err());
    assert!(unload_from_reader(&mut Failing, &mut env).is_err());
    assert_eq!(env.len(), 1);
    assert_eq!(key(&env, "A"), Some("1".to_string()));
}

#[test]
fn invalid_utf8_source_is_an_error() {
    let mut env = Environment::new();
    let mut source = Cursor::new(vec![b'A', b'=', 0xff, 0xfe]);
    assert!(load_from_reader(&mut source, &mut env).is_err());
    assert_eq!(env.len(), 0);
}

#[test]
fn table_set_get_remove() {
    let mut env = Environment::new();
    assert_eq!(env.len(), 0);
    assert!(!env.contains_key("A"));
    env.set("A", "1");
    env.set("B", "2");
    env.set("A", "3");
    assert_eq!(env.len(), 2);
    assert_eq!(env.get("A"), Some("3".to_string()));
    env.remove("A");
    assert!(!env.contains_key("A"));
    assert!(env.contains_key("B"));
}
