use staticizer::bytes::{bytes_equal, bytes_less, starts_with};
use staticizer::order::{dedup_by_same, sort_by_rank};
use staticizer::finish::{DefPath, Instance};
use staticizer::records::Record;

fn rec(id: u64, symbol: &str) -> Record {
    Record { id, symbol: symbol.as_bytes().to_vec() }
}

#[test]
fn byte_order_is_lexicographic() {
    assert!(bytes_less(&b"a".to_vec(), &b"b".to_vec()));
    assert!(bytes_less(&b"ab".to_vec(), &b"abc".to_vec()));
    assert!(!bytes_less(&b"abc".to_vec(), &b"ab".to_vec()));
    assert!(!bytes_less(&b"ab".to_vec(), &b"ab".to_vec()));
    assert!(bytes_less(&b"".to_vec(), &b"a".to_vec()));
    assert!(bytes_less(&b"Z".to_vec(), &b"a".to_vec()));
    assert!(bytes_less(&b"application::APPLICATION".to_vec(), &b"application::nested::NESTED".to_vec()));
}

#[test]
fn byte_equality_and_prefix() {
    assert!(bytes_equal(&b"abc".to_vec(), &b"abc".to_vec()));
    assert!(!bytes_equal(&b"abc".to_vec(), &b"abd".to_vec()));
    assert!(!bytes_equal(&b"abc".to_vec(), &b"ab".to_vec()));
    assert!(starts_with(&b"abc".to_vec(), &b"ab".to_vec()));
    assert!(starts_with(&b"abc".to_vec(), &b"".to_vec()));
    assert!(!starts_with(&b"ab".to_vec(), &b"abc".to_vec()));
    assert!(!starts_with(&b"abc".to_vec(), &b"b".to_vec()));
}

#[test]
fn sort_is_stable() {
    let sorted = sort_by_rank(vec![rec(1, "b"), rec(2, "a"), rec(3, "b"), rec(4, "a"), rec(5, "")]);
    let ids: Vec<u64> = sorted.iter().map(|r| r.id).collect();
    assert_eq!(ids, vec![5, 2, 4, 1, 3]);
}

#[test]
fn sort_of_nothing_is_nothing() {
    let sorted = sort_by_rank(Vec::<Record>::new());
    assert!(sorted.is_empty());
}

#[test]
fn dedup_drops_adjacent_repeats_only() {
    let inst = |id: u64, args: u64| Instance {
        def: DefPath { id, krate: b"staticizer".to_vec(), name: Some(b"output".to_vec()) },
        args,
        symbol: format!("s{}_{}", id, args).into_bytes(),
    };
    let out = dedup_by_same(vec![inst(1, 1), inst(1, 1), inst(1, 2), inst(1, 1), inst(1, 1)]);
    let keys: Vec<(u64, u64)> = out.iter().map(|i| (i.def.id, i.args)).collect();
    assert_eq!(keys, vec![(1, 1), (1, 2), (1, 1)]);
}

#[test]
fn sort_matches_a_stable_sort_on_many_items() {
    let names = ["m", "c", "z", "c", "a", "m", "", "zz", "a", "b"];
    let items: Vec<Record> = (0..200u64).map(|i| rec(i, names[((i * 7) % 10) as usize])).collect();
    let mut expected: Vec<(Vec<u8>, u64)> = items.iter().map(|r| (r.symbol.clone(), r.id)).collect();
    expected.sort_by(|a, b| a.0.cmp(&b.0));
    let sorted = sort_by_rank(items);
    let got: Vec<(Vec<u8>, u64)> = sorted.iter().map(|r| (r.symbol.clone(), r.id)).collect();
    assert_eq!(got, expected);
}
