use rhh::{AsByte, HashElem, HashMap, Iter, Keys};
use std::collections::BTreeSet;

#[test]
fn test_hash_map() {
    let mut m = HashMap::new();

    let size = 512;
    for i in 0..size {
        let key = i.to_string();
        m.insert(key.clone(), key);
    }

    for i in 0..size {
        let key = i.to_string();
        let val = m.get(&key).unwrap();
        assert_eq!(val.as_str(), key.as_str());
    }

    let mut it = m.iter_mut();
    while let Some((k, v)) = it.next() {
        println!("{} => {}", k, v);
    }
    let mut it = m.iter();
    while let Some((k, v)) = it.next() {
        println!("{} => {}", k, v);
    }
}

#[test]
fn five_hundred_twelve_string_keys() {
    let mut m = HashMap::new();
    for i in 0..512 {
        let key = i.to_string();
        m.insert(key.clone(), key);
    }
    assert_eq!(m.get(&"256".to_string()).unwrap().as_str(), "256");
    assert_eq!(m.len(), 512);

    let mut seen = BTreeSet::new();
    let mut it = m.iter();
    let mut n = 0;
    while let Some((k, v)) = it.next() {
        assert_eq!(k, v);
        seen.insert(k.clone());
        n += 1;
    }
    assert_eq!(n, 512);
    assert_eq!(seen.len(), 512);
    for i in 0..512 {
        assert!(seen.contains(&i.to_string()));
    }
}

#[test]
fn ten_integer_keys_grow_a_table_of_four_twice() {
    let mut m: HashMap<Vec<u8>, u64> = HashMap::with_capacity_and_factor(4, 90);
    assert_eq!(m.capacity(), 4);
    let mut growths = 0;
    for i in 0..10u64 {
        let before = m.capacity();
        m.insert(i.to_be_bytes().to_vec(), i);
        if m.capacity() != before {
            assert_eq!(m.capacity(), 2 * before);
            growths += 1;
        }
    }
    assert!(growths >= 2);
    assert_eq!(growths, 2);
    assert_eq!(m.capacity(), 16);
    assert_eq!(m.len(), 10);
    for i in 0..10u64 {
        assert_eq!(m.get(&i.to_be_bytes().to_vec()), Some(&i));
    }
}

#[test]
fn a_table_of_four_fills_up_before_it_grows() {
    let mut m: HashMap<Vec<u8>, u64> = HashMap::with_capacity_and_factor(4, 90);
    for i in 0..4u64 {
        m.insert(vec![i as u8], i);
    }
    // the threshold of 4 slots at 90 percent is 3: the fourth entry still goes in
    assert_eq!(m.capacity(), 4);
    assert_eq!(m.len(), 4);
    for i in 0..4u64 {
        assert_eq!(m.get(&vec![i as u8]), Some(&i));
    }
    // a lookup in the full table ends
    assert_eq!(m.get(&vec![9u8]), None);
    m.insert(vec![4u8], 4);
    assert_eq!(m.capacity(), 8);
    assert_eq!(m.len(), 5);
}

#[test]
fn new_map_is_empty_with_256_slots() {
    let m: HashMap<String, u32> = HashMap::new();
    assert_eq!(m.len(), 0);
    assert_eq!(m.capacity(), 256);
    assert_eq!(m.get(&"a".to_string()), None);
    let mut it = m.iter();
    assert!(it.next().is_none());
}

#[test]
fn capacity_is_rounded_up_to_a_power_of_two() {
    let cases: [(usize, u64); 12] = [
        (0, 2),
        (1, 2),
        (2, 2),
        (3, 4),
        (4, 4),
        (5, 8),
        (8, 8),
        (9, 16),
        (100, 128),
        (256, 256),
        (257, 512),
        (1000, 1024),
    ];
    for (asked, got) in cases {
        let m: HashMap<String, u32> = HashMap::with_capacity(asked);
        assert_eq!(m.capacity(), got);
        assert_eq!(m.len(), 0);
    }
}

#[test]
fn a_table_that_was_asked_for_with_another_size_works() {
    let mut m: HashMap<String, usize> = HashMap::with_capacity(5);
    for i in 0..100 {
        m.insert(i.to_string(), i);
    }
    for i in 0..100 {
        assert_eq!(m.get(&i.to_string()), Some(&i));
    }
    assert_eq!(m.len(), 100);
}

#[test]
fn insert_overwrites_without_changing_len() {
    let mut m = HashMap::new();
    m.insert("a".to_string(), 1);
    m.insert("b".to_string(), 2);
    assert_eq!(m.len(), 2);
    m.insert("a".to_string(), 3);
    assert_eq!(m.len(), 2);
    assert_eq!(m.get(&"a".to_string()), Some(&3));
    assert_eq!(m.get(&"b".to_string()), Some(&2));
}

#[test]
fn get_returns_the_last_value_across_growth() {
    let mut m: HashMap<String, usize> = HashMap::with_capacity_and_factor(2, 50);
    for round in 0..3 {
        for i in 0..300 {
            m.insert(i.to_string(), i + round);
        }
    }
    assert_eq!(m.len(), 300);
    for i in 0..300 {
        assert_eq!(m.get(&i.to_string()), Some(&(i + 2)));
    }
    let c = m.capacity();
    assert!(c.is_power_of_two());
    assert!(m.len() <= c);
}

#[test]
fn capacity_stays_a_power_of_two_and_above_len() {
    let mut m: HashMap<Vec<u8>, u64> = HashMap::with_capacity_and_factor(2, 75);
    for i in 0..1000u64 {
        m.insert(i.to_be_bytes().to_vec(), i);
        assert!(m.capacity().is_power_of_two());
        assert!(m.len() <= m.capacity());
        assert_eq!(m.len(), i + 1);
    }
}

#[test]
fn load_factor_zero_grows_before_every_insertion_but_the_first() {
    let mut m: HashMap<String, u32> = HashMap::with_capacity_and_factor(2, 0);
    m.insert("a".to_string(), 1);
    assert_eq!(m.capacity(), 2);
    m.insert("b".to_string(), 2);
    assert_eq!(m.capacity(), 4);
    m.insert("c".to_string(), 3);
    assert_eq!(m.capacity(), 8);
    assert_eq!(m.len(), 3);
    assert_eq!(m.get(&"a".to_string()), Some(&1));
    assert_eq!(m.get(&"b".to_string()), Some(&2));
    assert_eq!(m.get(&"c".to_string()), Some(&3));
}

#[test]
fn get_of_a_missing_key_is_none() {
    let mut m = HashMap::new();
    for i in 0..200 {
        m.insert(i.to_string(), i);
    }
    for i in 200..400 {
        assert_eq!(m.get(&i.to_string()), None);
    }
    assert_eq!(m.get(&String::new()), None);
}

#[test]
fn get_mut_changes_the_value_in_place() {
    let mut m = HashMap::new();
    m.insert("a".to_string(), 1);
    m.insert("b".to_string(), 2);
    *m.get_mut(&"a".to_string()).unwrap() += 10;
    assert_eq!(m.get(&"a".to_string()), Some(&11));
    assert_eq!(m.get(&"b".to_string()), Some(&2));
    assert!(m.get_mut(&"c".to_string()).is_none());
    assert_eq!(m.len(), 2);
}

#[test]
fn iter_yields_every_pair_once() {
    let mut m = HashMap::with_capacity(8);
    for i in 0..50u32 {
        m.insert(i.to_string(), i);
    }
    m.insert("7".to_string(), 700);
    let mut seen = BTreeSet::new();
    let mut it = m.iter();
    while let Some((k, v)) = it.next() {
        let expected = if k == "7" { 700 } else { k.parse::<u32>().unwrap() };
        assert_eq!(*v, expected);
        assert!(seen.insert(k.clone()));
    }
    assert_eq!(seen.len(), 50);
}

#[test]
fn iter_new_is_what_iter_gives() {
    let mut m = HashMap::new();
    m.insert("a".to_string(), 1);
    let mut it = Iter::new(&m);
    assert_eq!(it.size_hint(), (1, Some(1)));
    assert_eq!(it.next(), Some((&"a".to_string(), &1)));
    assert_eq!(it.size_hint(), (0, Some(0)));
    assert_eq!(it.next(), None);
    assert_eq!(it.next(), None);
}

#[test]
fn size_hint_counts_down() {
    let mut m = HashMap::new();
    for i in 0..20u32 {
        m.insert(i.to_string(), i);
    }
    let mut it = m.iter();
    for left in (0..20usize).rev() {
        assert_eq!(it.size_hint(), (left + 1, Some(left + 1)));
        assert!(it.next().is_some());
        assert_eq!(it.size_hint(), (left, Some(left)));
    }
    assert!(it.next().is_none());
}

#[test]
fn keys_yields_every_key_once() {
    let mut m = HashMap::new();
    for i in 0..30u32 {
        m.insert(i.to_string(), i);
    }
    let mut seen = BTreeSet::new();
    let mut keys = m.keys();
    while let Some(k) = keys.next() {
        assert!(seen.insert(k.clone()));
    }
    assert_eq!(seen.len(), 30);

    let mut keys = Keys::new(m.iter());
    let mut n = 0;
    while let Some(k) = keys.next() {
        assert!(seen.contains(k));
        n += 1;
    }
    assert_eq!(n, 30);
}

#[test]
fn keys_and_iter_agree_on_the_order() {
    let mut m = HashMap::with_capacity(4);
    for i in 0..40u32 {
        m.insert(i.to_string(), i);
    }
    let mut keys = m.keys();
    let mut it = m.iter();
    let mut it_mut_order = Vec::new();
    while let Some((k, _)) = it.next() {
        assert_eq!(keys.next(), Some(k));
        it_mut_order.push(k.clone());
    }
    assert_eq!(keys.next(), None);
    let mut n = 0;
    let mut im = m.iter_mut();
    while let Some((k, _)) = im.next() {
        assert_eq!(k, &it_mut_order[n]);
        n += 1;
    }
    assert_eq!(n, 40);
}

#[test]
fn iter_mut_changes_values_and_keeps_keys() {
    let mut m = HashMap::new();
    for i in 0..100u32 {
        m.insert(i.to_string(), i);
    }
    let mut it = m.iter_mut();
    let mut n = 0;
    while let Some((k, v)) = it.next() {
        assert_eq!(k.parse::<u32>().unwrap(), *v);
        *v += 1000;
        n += 1;
    }
    assert_eq!(n, 100);
    assert_eq!(m.len(), 100);
    for i in 0..100u32 {
        assert_eq!(m.get(&i.to_string()), Some(&(i + 1000)));
    }
}

#[test]
fn hash_elem_new_keeps_its_fields() {
    let e = HashElem::new(3, "k".to_string(), 9u8, 77);
    assert_eq!(e.dist, 3);
    assert_eq!(e.key, "k");
    assert_eq!(e.value, 9);
    assert_eq!(e.hash, 77);
}

#[test]
fn as_byte_gives_the_bytes() {
    assert_eq!("abc".as_byte(), b"abc");
    assert_eq!(String::from("abc").as_byte(), b"abc");
    assert_eq!(vec![1u8, 2, 3].as_byte(), &[1u8, 2, 3]);
    let s: &[u8] = &[4, 5];
    assert_eq!(s.as_byte(), &[4u8, 5]);
    assert_eq!("é".as_byte(), &[0xc3u8, 0xa9]);
}

#[test]
fn byte_slices_are_keys() {
    let a: &[u8] = b"alpha";
    let b: &[u8] = b"beta";
    let mut m: HashMap<&[u8], u32> = HashMap::new();
    m.insert(a, 1);
    m.insert(b, 2);
    let again: Vec<u8> = b"alpha".to_vec();
    assert_eq!(m.get(&again.as_slice()), Some(&1));
    assert_eq!(m.get(&b), Some(&2));
    assert_eq!(m.len(), 2);
}

#[derive(PartialEq, Eq, Hash, Debug)]
struct Tagged {
    bytes: Vec<u8>,
    tag: u8,
}

impl AsByte for Tagged {
    fn as_byte(&self) -> &[u8] {
        &self.bytes
    }
}

#[test]
fn keys_with_the_same_bytes_that_are_not_equal_are_kept_apart() {
    let mut m: HashMap<Tagged, u32> = HashMap::with_capacity(2);
    for tag in 0..20u8 {
        m.insert(Tagged { bytes: vec![1, 2, 3], tag }, tag as u32);
    }
    assert_eq!(m.len(), 20);
    for tag in 0..20u8 {
        assert_eq!(m.get(&Tagged { bytes: vec![1, 2, 3], tag }), Some(&(tag as u32)));
    }
    assert_eq!(m.get(&Tagged { bytes: vec![1, 2, 3], tag: 20 }), None);
    m.insert(Tagged { bytes: vec![1, 2, 3], tag: 5 }, 500);
    assert_eq!(m.len(), 20);
    assert_eq!(m.get(&Tagged { bytes: vec![1, 2, 3], tag: 5 }), Some(&500));
}

#[test]
fn threshold_is_the_load_factor_as_a_percentage_of_the_capacity() {
    // 8 slots at 50 percent: the table grows once it holds more than 4 entries
    let mut m: HashMap<String, u32> = HashMap::with_capacity_and_factor(8, 50);
    for i in 0..5u32 {
        m.insert(i.to_string(), i);
        assert_eq!(m.capacity(), 8);
    }
    m.insert("5".to_string(), 5);
    assert_eq!(m.capacity(), 16);
    // 16 slots at 50 percent: more than 8 entries
    for i in 6..9u32 {
        m.insert(i.to_string(), i);
        assert_eq!(m.capacity(), 16);
    }
    m.insert("9".to_string(), 9);
    assert_eq!(m.capacity(), 32);
    assert_eq!(m.len(), 10);
}

#[test]
fn overwriting_above_the_threshold_grows_the_table_too() {
    let mut m: HashMap<String, u32> = HashMap::with_capacity_and_factor(4, 50);
    for i in 0..3u32 {
        m.insert(i.to_string(), i);
    }
    assert_eq!(m.capacity(), 4);
    m.insert("0".to_string(), 100);
    assert_eq!(m.capacity(), 8);
    assert_eq!(m.len(), 3);
    assert_eq!(m.get(&"0".to_string()), Some(&100));
}

#[test]
fn the_same_insertions_give_the_same_order() {
    let mut a: HashMap<String, u32> = HashMap::with_capacity(4);
    let mut b: HashMap<String, u32> = HashMap::with_capacity(4);
    for i in 0..200u32 {
        a.insert(i.to_string(), i);
        b.insert(i.to_string(), i);
    }
    let mut ia = a.iter();
    let mut ib = b.iter();
    loop {
        let x = ia.next();
        let y = ib.next();
        assert_eq!(x, y);
        if x.is_none() {
            break;
        }
    }
}

#[test]
fn every_entry_sits_within_reach_of_its_home() {
    // a lookup walks from the home slot of the key and finds every key,
    // however the table was filled
    let mut m: HashMap<Vec<u8>, usize> = HashMap::with_capacity_and_factor(2, 99);
    for i in 0..5000usize {
        m.insert(i.to_le_bytes().to_vec(), i);
    }
    for i in 0..5000usize {
        assert_eq!(m.get(&i.to_le_bytes().to_vec()), Some(&i));
    }
    for i in 5000..6000usize {
        assert_eq!(m.get(&i.to_le_bytes().to_vec()), None);
    }
    assert_eq!(m.len(), 5000);
}
