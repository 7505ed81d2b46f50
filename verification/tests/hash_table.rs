#[test]
fn basics() {
    let mut hashtab = linear_hash::hash::Hash::new();
    assert_eq!(hashtab.lookup("abc"), None);
    hashtab.upsert("abc", 64);
    hashtab.upsert("abcdefghijklmnopq", 128);
    assert_eq!(hashtab.lookup("abc"), Some(&64));
    assert_eq!(hashtab.lookup("abc"), Some(&64));
    assert_eq!(hashtab.lookup("abcdefghijklmnopq"), Some(&128));
    hashtab.upsert("abc", 256);
    assert_eq!(hashtab.lookup("abc"), Some(&256));
    hashtab.remove("abc");
    assert_eq!(hashtab.lookup("abc"), None);
    assert_eq!(hashtab.lookup("abcd"), None);
    let nippon = "私はガラスを食べられます。それは私を傷つけません。";
    hashtab.upsert(nippon, 31337);
    assert_eq!(hashtab.lookup(nippon), Some(&31337));
    hashtab.remove(nippon);
    assert_eq!(hashtab.lookup(nippon), None);
    println!("done");
}

#[test]
fn test_split() {
    let mut hashtab = linear_hash::hash::Hash::new();

    let n_entries = 8192;

    for i in 0..n_entries {
        let k = i.to_string();
        hashtab.upsert(&k, i);
    }

    for i in 0..n_entries {
        let k = i.to_string();
        let val = hashtab.lookup(&k);

        assert!(val.is_some());
        let unwrapped = val.unwrap();
        assert_eq!(*unwrapped, i);
    }
}

#[test]
fn new_table_has_32_buckets() {
    let hashtab = linear_hash::hash::Hash::<u32>::new();
    assert_eq!(hashtab.len(), 32);
}

#[test]
fn upsert_reports_new_then_overwrite() {
    let mut hashtab = linear_hash::hash::Hash::new();
    assert!(hashtab.upsert("alpha", 1));
    assert!(!hashtab.upsert("alpha", 2));
    assert_eq!(hashtab.lookup("alpha"), Some(&2));
    assert!(hashtab.upsert("beta", 3));
    assert_eq!(hashtab.lookup("alpha"), Some(&2));
    assert_eq!(hashtab.lookup("beta"), Some(&3));
}

#[test]
fn remove_returns_value_once() {
    let mut hashtab = linear_hash::hash::Hash::new();
    hashtab.upsert("gone", 7);
    assert_eq!(hashtab.remove("gone"), Some(7));
    assert_eq!(hashtab.remove("gone"), None);
    assert_eq!(hashtab.lookup("gone"), None);
    assert_eq!(hashtab.remove("never"), None);
}

#[test]
fn empty_key_round_trips() {
    let mut hashtab = linear_hash::hash::Hash::new();
    assert_eq!(hashtab.lookup(""), None);
    hashtab.upsert("", 11);
    assert_eq!(hashtab.lookup(""), Some(&11));
    assert_eq!(hashtab.remove(""), Some(11));
    assert_eq!(hashtab.lookup(""), None);
}

#[test]
fn prefix_keys_stay_distinct() {
    let mut hashtab = linear_hash::hash::Hash::new();
    hashtab.upsert("a", 1);
    hashtab.upsert("ab", 2);
    hashtab.upsert("abc", 3);
    assert_eq!(hashtab.lookup("a"), Some(&1));
    assert_eq!(hashtab.lookup("ab"), Some(&2));
    assert_eq!(hashtab.lookup("abc"), Some(&3));
    assert_eq!(hashtab.lookup("abcd"), None);
    assert_eq!(hashtab.remove("ab"), Some(2));
    assert_eq!(hashtab.lookup("a"), Some(&1));
    assert_eq!(hashtab.lookup("ab"), None);
    assert_eq!(hashtab.lookup("abc"), Some(&3));
}

#[test]
fn growth_is_monotonic_and_lookup_transparent() {
    let mut hashtab = linear_hash::hash::Hash::new();
    let mut last_len = hashtab.len();
    assert_eq!(last_len, 32);
    for i in 0..2000u32 {
        let k = format!("key-{}", i);
        hashtab.upsert(&k, i);
        let len = hashtab.len();
        assert!(len >= last_len);
        last_len = len;
    }
    assert!(last_len > 32);
    for i in 0..2000u32 {
        let k = format!("key-{}", i);
        assert_eq!(hashtab.lookup(&k), Some(&i));
    }
    assert_eq!(hashtab.lookup("key-2000"), None);
}

#[test]
fn removals_survive_growth() {
    let mut hashtab = linear_hash::hash::Hash::new();
    for i in 0..1000i32 {
        let k = i.to_string();
        hashtab.upsert(&k, i);
    }
    for i in 0..1000i32 {
        if i % 2 == 0 {
            let k = i.to_string();
            assert_eq!(hashtab.remove(&k), Some(i));
        }
    }
    for i in 0..1000i32 {
        let k = i.to_string();
        if i % 2 == 0 {
            assert_eq!(hashtab.lookup(&k), None);
        } else {
            assert_eq!(hashtab.lookup(&k), Some(&i));
        }
    }
    let len_before = hashtab.len();
    for i in 1000..1100i32 {
        let k = i.to_string();
        hashtab.upsert(&k, i);
    }
    assert!(hashtab.len() >= len_before);
}

#[test]
fn string_values_round_trip() {
    let mut hashtab = linear_hash::hash::Hash::new();
    hashtab.upsert("greeting", String::from("hello"));
    hashtab.upsert("parting", String::from("goodbye"));
    assert_eq!(hashtab.lookup("greeting"), Some(&String::from("hello")));
    assert_eq!(hashtab.remove("parting"), Some(String::from("goodbye")));
    assert_eq!(hashtab.lookup("parting"), None);
}
