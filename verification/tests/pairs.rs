use node_provider_labeler::pairs::MetadataPairs;
use node_provider_labeler::text::{order_of, Order};
use std::collections::BTreeMap;

#[test]
fn pairs_new_is_empty() {
    let m = MetadataPairs::new();
    assert!(m.is_empty());
    assert_eq!(m.get("a"), None);
    assert!(m.entries().is_empty());
    assert_eq!(m, MetadataPairs::new());
}

#[test]
fn pairs_insert_and_get() {
    let mut m = MetadataPairs::new();
    assert_eq!(m.insert("a".to_string(), "1".to_string()), None);
    assert_eq!(m.insert("b".to_string(), "2".to_string()), None);
    assert!(!m.is_empty());
    assert_eq!(m.get("a"), Some(&"1".to_string()));
    assert_eq!(m.get("b"), Some(&"2".to_string()));
    assert_eq!(m.get("c"), None);
    assert_eq!(m.get(""), None);

    // a key keeps its place and takes the new value
    assert_eq!(
        m.insert("a".to_string(), "3".to_string()),
        Some("1".to_string())
    );
    assert_eq!(m.get("a"), Some(&"3".to_string()));
    assert_eq!(m.get("b"), Some(&"2".to_string()));
    assert_eq!(
        m.entries(),
        &vec![
            ("a".to_string(), "3".to_string()),
            ("b".to_string(), "2".to_string()),
        ]
    );
}

#[test]
fn pairs_equality_is_that_of_maps() {
    let mut a = MetadataPairs::new();
    a.insert("x".to_string(), "1".to_string());
    a.insert("y".to_string(), "2".to_string());
    let mut b = MetadataPairs::new();
    b.insert("y".to_string(), "2".to_string());
    b.insert("x".to_string(), "1".to_string());
    assert_eq!(a, b);
    assert_eq!(b, a);
    assert_eq!(a.clone(), a);

    let mut c = b.clone();
    c.insert("x".to_string(), "changed".to_string());
    assert_ne!(a, c);
    assert_ne!(c, a);

    let mut d = a.clone();
    d.insert("z".to_string(), "3".to_string());
    assert_ne!(a, d);
    assert_ne!(d, a);
    assert_ne!(a, MetadataPairs::new());
    assert_ne!(MetadataPairs::new(), a);
}

#[test]
fn pairs_are_listed_in_the_order_of_their_keys() {
    let keys = [
        "b", "a", "", "ab", "a-", "B", "zz", "z", "é", "e", "ez", "a/b", "a.b", "10", "9", "~",
        "日本", "\u{10000}", "\u{ffff}",
    ];
    let mut m = MetadataPairs::new();
    let mut reference = BTreeMap::new();
    for (i, k) in keys.iter().enumerate() {
        m.insert(k.to_string(), i.to_string());
        reference.insert(k.to_string(), i.to_string());
    }
    // the same keys again, the other way round
    for (i, k) in keys.iter().enumerate().rev() {
        m.insert(k.to_string(), format!("v{}", i));
        reference.insert(k.to_string(), format!("v{}", i));
    }
    let listed: Vec<(String, String)> = m.entries().clone();
    let expected: Vec<(String, String)> = reference.into_iter().collect();
    assert_eq!(listed, expected);
    assert_eq!(listed.len(), keys.len());
    assert_eq!(m.get("é"), Some(&"v8".to_string()));
}

#[test]
fn order_of_is_the_order_of_strings() {
    assert_eq!(order_of("", ""), Order::Same);
    assert_eq!(order_of("a", "a"), Order::Same);
    assert_eq!(order_of("", "a"), Order::Before);
    assert_eq!(order_of("a", ""), Order::After);
    assert_eq!(order_of("a", "b"), Order::Before);
    assert_eq!(order_of("b", "a"), Order::After);
    assert_eq!(order_of("a", "ab"), Order::Before);
    assert_eq!(order_of("ab", "a"), Order::After);
    assert_eq!(order_of("ab", "b"), Order::Before);
    assert_eq!(order_of("Z", "a"), Order::Before);
    assert_eq!(order_of("z", "é"), Order::Before);
    assert_eq!(order_of("\u{ffff}", "\u{10000}"), Order::Before);
    let texts = ["", "a", "ab", "b", "B", "é", "e", "~", "\u{ffff}", "\u{10000}", "10", "9"];
    for a in texts {
        for b in texts {
            let expected = match a.cmp(b) {
                std::cmp::Ordering::Less => Order::Before,
                std::cmp::Ordering::Equal => Order::Same,
                std::cmp::Ordering::Greater => Order::After,
            };
            assert_eq!(order_of(a, b), expected, "{:?} {:?}", a, b);
        }
    }
}
