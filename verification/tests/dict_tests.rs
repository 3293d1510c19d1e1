use nicos_compact_cachedb::dicts::{Dict, Dicts};

#[test]
fn dict_assigns_sequential_indices() {
    let mut d = Dict::new(10);
    assert_eq!(d.index(b"alpha"), Some(0));
    assert_eq!(d.index(b"beta"), Some(1));
    assert_eq!(d.index(b"gamma"), Some(2));
    assert_eq!(d.len(), 3);
}

#[test]
fn dict_idempotent_insert() {
    let mut d = Dict::new(10);
    let first = d.index(b"alpha");
    let second = d.index(b"alpha");
    assert_eq!(first, Some(0));
    assert_eq!(second, Some(0));
    assert_eq!(d.len(), 1);
    assert_eq!(d.index(b"beta"), Some(1));
    assert_eq!(d.index(b"beta"), Some(1));
    assert_eq!(d.len(), 2);
}

#[test]
fn dict_bound_overflow() {
    let mut d = Dict::new(2);
    assert_eq!(d.index(b"a"), Some(0));
    assert_eq!(d.index(b"b"), Some(1));
    assert_eq!(d.index(b"c"), None);
    // existing entries are still found past the bound
    assert_eq!(d.index(b"a"), Some(0));
    assert_eq!(d.index(b"b"), Some(1));
    assert_eq!(d.len(), 2);
}

#[test]
fn dict_rejects_line_terminator() {
    let mut d = Dict::new(10);
    assert_eq!(d.index(b"a\nb"), None);
    assert_eq!(d.len(), 0);
}

#[test]
fn dict_value_returns_assigned_string() {
    let mut d = Dict::new(10);
    d.index(b"alpha").unwrap();
    d.index(b"beta").unwrap();
    assert_eq!(d.value(0), b"alpha");
    assert_eq!(d.value(1), b"beta");
}

#[test]
fn dict_save_format_is_one_entry_per_line() {
    let mut d = Dict::new(10);
    d.index(b"alpha").unwrap();
    d.index(b"beta").unwrap();
    assert_eq!(d.save(), b"alpha\nbeta\n".to_vec());
}

#[test]
fn dict_save_load_round_trip() {
    let mut d = Dict::new(100);
    let inputs: [&[u8]; 4] = [b"t/value", b"t2/status", b"", b"x"];
    for s in inputs.iter() {
        d.index(s).unwrap();
    }
    let saved = d.save();
    let mut loaded = Dict::load(&saved, 100).expect("saved form loads");
    for (i, s) in inputs.iter().enumerate() {
        assert_eq!(loaded.index(s), Some(i as u32), "index preserved for {:?}", s);
        assert_eq!(loaded.value(i as u32), *s);
    }
    assert_eq!(loaded.len(), d.len());
}

#[test]
fn dict_load_rejects_duplicates() {
    assert!(Dict::load(b"a\nb\na\n", 10).is_none());
}

#[test]
fn dict_load_rejects_too_many_lines() {
    assert!(Dict::load(b"a\nb\nc\n", 2).is_none());
    assert!(Dict::load(b"a\nb\n", 2).is_some());
}

#[test]
fn dict_load_without_trailing_terminator() {
    let mut d = Dict::load(b"a\nb", 10).expect("loads");
    assert_eq!(d.index(b"a"), Some(0));
    assert_eq!(d.index(b"b"), Some(1));
    assert_eq!(d.len(), 2);
}

#[test]
fn dicts_value_dictionary_preseeded_with_sentinel() {
    let mut dicts = Dicts::new();
    assert_eq!(dicts.value_index(b"-"), Some(0));
    assert_eq!(dicts.value(0), b"-");
}

#[test]
fn dicts_key_and_value_indices_are_independent() {
    let mut dicts = Dicts::new();
    assert_eq!(dicts.key_index(b"temperature"), Some(0));
    assert_eq!(dicts.key_index(b"pressure"), Some(1));
    assert_eq!(dicts.key_index(b"temperature"), Some(0));
    assert_eq!(dicts.key(0), b"temperature");
    assert_eq!(dicts.key(1), b"pressure");
    // value dictionary starts at 1: index 0 is the sentinel
    assert_eq!(dicts.value_index(b"'on"), Some(1));
    assert_eq!(dicts.value(1), b"'on");
}

#[test]
fn dicts_load_rejects_duplicate_lines_in_either_file() {
    assert!(Dicts::load(b"a\na\n", b"-\n").is_none());
    assert!(Dicts::load(b"a\nb\n", b"-\n-\n").is_none());
}

#[test]
fn dicts_save_load_round_trip() {
    let mut dicts = Dicts::new();
    dicts.key_index(b"temperature").unwrap();
    dicts.key_index(b"t/value").unwrap();
    dicts.value_index(b"'hello").unwrap();
    let (keys_data, vals_data) = dicts.save();
    assert_eq!(keys_data, b"temperature\nt/value\n".to_vec());
    assert_eq!(vals_data, b"-\n'hello\n".to_vec());

    let mut loaded = Dicts::load(&keys_data, &vals_data).expect("saved form loads");
    assert_eq!(loaded.key_index(b"temperature"), Some(0));
    assert_eq!(loaded.key_index(b"t/value"), Some(1));
    assert_eq!(loaded.value_index(b"-"), Some(0));
    assert_eq!(loaded.value_index(b"'hello"), Some(1));
    assert_eq!(loaded.key(0), b"temperature");
    assert_eq!(loaded.value(1), b"'hello");
}
