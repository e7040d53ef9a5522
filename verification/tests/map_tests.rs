use wave::order::{compare_text, Order};
use wave::str_map::StrMap;

fn keys<V>(m: &StrMap<V>) -> Vec<String> {
    (0..m.len()).map(|i| m.key(i).clone()).collect()
}

#[test]
fn keys_come_out_sorted() {
    let mut m = StrMap::new();
    for k in ["zeta", "alpha", "mid", "Beta", "alpha2"] {
        m.insert(k.to_string(), k.len());
    }
    assert_eq!(keys(&m), vec!["Beta", "alpha", "alpha2", "mid", "zeta"]);
}

#[test]
fn insert_then_get_reads_back() {
    let mut m = StrMap::new();
    assert_eq!(m.insert("a".to_string(), 1), None);
    assert_eq!(m.insert("a".to_string(), 2), Some(1));
    assert_eq!(m.get("a"), Some(&2));
    assert_eq!(m.get("b"), None);
    assert_eq!(m.len(), 1);
    assert!(m.contains_key("a"));
    assert!(!m.is_empty());
}

#[test]
fn extend_prefers_other() {
    let mut a = StrMap::new();
    a.insert("x".to_string(), "1".to_string());
    a.insert("y".to_string(), "1".to_string());
    let mut b = StrMap::new();
    b.insert("y".to_string(), "2".to_string());
    b.insert("z".to_string(), "2".to_string());
    a.extend(b);
    assert_eq!(keys(&a), vec!["x", "y", "z"]);
    assert_eq!(a.get("x").unwrap(), "1");
    assert_eq!(a.get("y").unwrap(), "2");
    assert_eq!(a.get("z").unwrap(), "2");
}

#[test]
fn into_entries_in_order() {
    let mut m = StrMap::new();
    m.insert("b".to_string(), 2);
    m.insert("a".to_string(), 1);
    let e = m.into_entries();
    assert_eq!(e, vec![("a".to_string(), 1), ("b".to_string(), 2)]);
}

#[test]
fn duplicate_copies_entries() {
    let mut m = StrMap::new();
    m.insert("k".to_string(), "v".to_string());
    let d = m.duplicate();
    assert_eq!(d.get("k").unwrap(), "v");
    assert_eq!(d.len(), 1);
}

#[test]
fn text_order_is_byte_order() {
    assert_eq!(compare_text("a", "b"), Order::Less);
    assert_eq!(compare_text("b", "a"), Order::Greater);
    assert_eq!(compare_text("abc", "abc"), Order::Equal);
    assert_eq!(compare_text("ab", "abc"), Order::Less);
    assert_eq!(compare_text("", ""), Order::Equal);
    assert_eq!(compare_text("Z", "a"), Order::Less);
    assert_eq!(compare_text("é", "z"), Order::Greater);
    assert_eq!(compare_text("z", "é"), "z".cmp("é").into_order());
}

trait IntoOrder {
    fn into_order(self) -> Order;
}

impl IntoOrder for std::cmp::Ordering {
    fn into_order(self) -> Order {
        match self {
            std::cmp::Ordering::Less => Order::Less,
            std::cmp::Ordering::Equal => Order::Equal,
            std::cmp::Ordering::Greater => Order::Greater,
        }
    }
}
