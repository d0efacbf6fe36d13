use std::collections::BTreeSet;
use veb_map::cache_oblivious::BTreeMap;
use veb_map::layout::compute_node_id_internal;

#[test]
fn test_node_ids() {
    let answer = vec![
        1usize, 2, 17, 3, 4, 18, 19, 5, 8, 11, 14, 20, 23, 26, 29, 6, 7, 9, 10, 12, 13, 15, 16,
        21, 22, 24, 25, 27, 28, 30, 31,
    ];
    for (n, &id) in answer.iter().enumerate() {
        let mut log2 = 1usize;
        let d = n + 1;
        while (d >> log2) > 0 {
            log2 += 1;
        }
        assert_eq!(compute_node_id_internal(d, log2, 5), id);
    }
}

#[test]
fn test_other_keys() {
    let mut map = BTreeMap::new();
    for i in 1000..1128 {
        assert_eq!(map.insert(i, i), None);
        assert_eq!(map.len(), i - 999);
    }

    for i in 1000..1128 {
        assert_eq!(map.remove(&i), Some(i));
        assert_eq!(map.len(), 127);
        assert_eq!(map.insert(i + 128, i + 128), None);
        assert_eq!(map.len(), 128);
    }
}

#[test]
fn test_opertions() {
    let mut map = BTreeMap::new();
    assert_eq!(map.len(), 0);
    assert_eq!(map.get_all_key_values(), []);

    assert_eq!(map.insert(1, 11), None);
    assert_eq!(map.len(), 1);
    assert_eq!(map.get_all_key_values(), [(1, 11)]);

    assert_eq!(map.insert(3, 33), None);
    assert_eq!(map.len(), 2);
    assert_eq!(map.get_all_key_values(), [(1, 11), (3, 33)]);

    assert_eq!(map.insert(0, 0), None);
    assert_eq!(map.len(), 3);
    assert_eq!(map.get_all_key_values(), [(0, 0), (1, 11), (3, 33)]);

    assert_eq!(map.insert(5, 555), None);
    assert_eq!(map.len(), 4);
    assert_eq!(
        map.get_all_key_values(),
        [(0, 0), (1, 11), (3, 33), (5, 555)]
    );

    assert_eq!(map.insert(2, 2222), None);
    assert_eq!(map.len(), 5);
    assert_eq!(
        map.get_all_key_values(),
        [(0, 0), (1, 11), (2, 2222), (3, 33), (5, 555)]
    );

    assert_eq!(map.insert(1, 1000), Some(11));
    assert_eq!(map.len(), 5);
    assert_eq!(
        map.get_all_key_values(),
        [(0, 0), (1, 1000), (2, 2222), (3, 33), (5, 555)]
    );

    assert_eq!(map.insert(4, 44444), None);
    assert_eq!(map.len(), 6);
    assert_eq!(
        map.get_all_key_values(),
        [(0, 0), (1, 1000), (2, 2222), (3, 33), (4, 44444), (5, 555)]
    );

    assert_eq!(map.insert(0, 44444), Some(0));
    assert_eq!(map.len(), 6);
    assert_eq!(
        map.get_all_key_values(),
        [(0, 44444), (1, 1000), (2, 2222), (3, 33), (4, 44444), (5, 555)]
    );

    assert_eq!(map.remove(&0), Some(44444));
    assert_eq!(map.len(), 5);
    assert_eq!(
        map.get_all_key_values(),
        [(1, 1000), (2, 2222), (3, 33), (4, 44444), (5, 555)]
    );

    assert_eq!(map.remove(&0), None);
    assert_eq!(map.len(), 5);
    assert_eq!(
        map.get_all_key_values(),
        [(1, 1000), (2, 2222), (3, 33), (4, 44444), (5, 555)]
    );

    assert_eq!(map.remove(&4), Some(44444));
    assert_eq!(map.len(), 4);
    assert_eq!(
        map.get_all_key_values(),
        [(1, 1000), (2, 2222), (3, 33), (5, 555)]
    );

    assert_eq!(map.remove(&4), None);
    assert_eq!(map.len(), 4);
    assert_eq!(
        map.get_all_key_values(),
        [(1, 1000), (2, 2222), (3, 33), (5, 555)]
    );

    assert_eq!(map.insert(4, 44), None);
    assert_eq!(map.len(), 5);
    assert_eq!(
        map.get_all_key_values(),
        [(1, 1000), (2, 2222), (3, 33), (4, 44), (5, 555)]
    );

    assert_eq!(map.insert(5, 55), Some(555));
    assert_eq!(map.len(), 5);
    assert_eq!(
        map.get_all_key_values(),
        [(1, 1000), (2, 2222), (3, 33), (4, 44), (5, 55)]
    );

    assert_eq!(map.remove(&1), Some(1000));
    assert_eq!(map.len(), 4);
    assert_eq!(
        map.get_all_key_values(),
        [(2, 2222), (3, 33), (4, 44), (5, 55)]
    );

    assert_eq!(map.remove(&5), Some(55));
    assert_eq!(map.len(), 3);
    assert_eq!(map.get_all_key_values(), [(2, 2222), (3, 33), (4, 44)]);

    assert_eq!(map.remove(&6), None);
    assert_eq!(map.len(), 3);
    assert_eq!(map.get_all_key_values(), [(2, 2222), (3, 33), (4, 44)]);

    assert_eq!(map.get(&3), Some(33));
    assert_eq!(map.get(&2), Some(2222));
    assert_eq!(map.get(&100), None);

    assert_eq!(map.get_top_k_key_values(1), [(2, 2222)]);
    assert_eq!(map.get_top_k_key_values(2), [(2, 2222), (3, 33)]);
    assert_eq!(map.get_top_k_key_values(3), [(2, 2222), (3, 33), (4, 44)]);
    assert_eq!(map.get_top_k_key_values(4), [(2, 2222), (3, 33), (4, 44)]);

    assert_eq!(map.remove(&3), Some(33));
    assert_eq!(map.len(), 2);
    assert_eq!(map.get_all_key_values(), [(2, 2222), (4, 44)]);

    assert_eq!(map.insert(3, 33), None);
    assert_eq!(map.len(), 3);
    assert_eq!(map.get_all_key_values(), [(2, 2222), (3, 33), (4, 44)]);

    assert_eq!(map.insert(3, 66), Some(33));
    assert_eq!(map.len(), 3);
    assert_eq!(map.get_all_key_values(), [(2, 2222), (3, 66), (4, 44)]);

    assert_eq!(map.remove(&5), None);
    assert_eq!(map.len(), 3);
    assert_eq!(map.get_all_key_values(), [(2, 2222), (3, 66), (4, 44)]);

    assert_eq!(map.remove(&4), Some(44));
    assert_eq!(map.len(), 2);
    assert_eq!(map.get_all_key_values(), [(2, 2222), (3, 66)]);
    assert_eq!(map.get_top_k_key_values(1), [(2, 2222)]);

    assert_eq!(map.insert(3, 123), Some(66));
    assert_eq!(map.len(), 2);
    assert_eq!(map.get_all_key_values(), [(2, 2222), (3, 123)]);

    assert_eq!(map.insert(2, 321), Some(2222));
    assert_eq!(map.len(), 2);
    assert_eq!(map.get_all_key_values(), [(2, 321), (3, 123)]);
    assert_eq!(map.get_top_k_key_values(1), [(2, 321)]);

    assert_eq!(map.remove(&3), Some(123));
    assert_eq!(map.len(), 1);
    assert_eq!(map.get_all_key_values(), [(2, 321)]);

    assert_eq!(map.remove(&3), None);
    assert_eq!(map.len(), 1);
    assert_eq!(map.get_all_key_values(), [(2, 321)]);
    assert_eq!(map.get_top_k_key_values(1), [(2, 321)]);

    assert_eq!(map.remove(&2), Some(321));
    assert_eq!(map.len(), 0);
    assert_eq!(map.get_all_key_values(), []);

    assert_eq!(map.remove(&2), None);
    assert_eq!(map.len(), 0);
    assert_eq!(map.get_all_key_values(), []);
}

/// The scenario above, continued: the first pairs in key order, with a
/// bound past the live count returning everything.
#[test]
fn test_top_k_exact() {
    let mut map = BTreeMap::new();
    assert_eq!(map.insert(1, 11), None);
    assert_eq!(map.insert(3, 33), None);
    assert_eq!(map.insert(0, 0), None);
    assert_eq!(map.insert(5, 555), None);
    assert_eq!(map.insert(2, 2222), None);
    assert_eq!(
        map.get_all_key_values(),
        [(0, 0), (1, 11), (2, 2222), (3, 33), (5, 555)]
    );
    assert_eq!(map.len(), 5);

    assert_eq!(map.insert(1, 1000), Some(11));
    assert_eq!(map.len(), 5);
    assert_eq!(map.get(&1), Some(1000));

    assert_eq!(map.insert(4, 44444), None);
    assert_eq!(map.remove(&0), Some(0));
    assert_eq!(map.remove(&0), None);
    assert_eq!(
        map.get_all_key_values(),
        [(1, 1000), (2, 2222), (3, 33), (4, 44444), (5, 555)]
    );

    assert_eq!(map.get_top_k_key_values(2), [(1, 1000), (2, 2222)]);
    assert_eq!(
        map.get_top_k_key_values(100),
        [(1, 1000), (2, 2222), (3, 33), (4, 44444), (5, 555)]
    );
}

#[test]
fn test_key_value_views() {
    let mut map = BTreeMap::new();
    assert!(map.is_empty());
    assert_eq!(map.get_first_key(), None);
    assert_eq!(map.key_vec(), Vec::<usize>::new());
    assert_eq!(map.value_vec(), Vec::<usize>::new());

    assert_eq!(map.insert(7, 70), None);
    assert_eq!(map.insert(2, 20), None);
    assert_eq!(map.insert(9, 90), None);
    assert!(!map.is_empty());
    assert_eq!(map.get_first_key(), Some(2));
    assert_eq!(map.key_vec(), vec![2, 7, 9]);
    assert_eq!(map.value_vec(), vec![20, 70, 90]);

    map.clear();
    assert!(map.is_empty());
    assert_eq!(map.len(), 0);
    assert_eq!(map.get_all_key_values(), []);
}

fn next_pseudo(state: &mut u64) -> u64 {
    *state = state
        .wrapping_mul(6364136223846793005)
        .wrapping_add(1442695040888963407);
    *state >> 16
}

fn shuffled(n: usize, seed: u64) -> Vec<usize> {
    let mut v: Vec<usize> = (0..n).collect();
    let mut state = seed;
    for i in (1..n).rev() {
        let j = (next_pseudo(&mut state) as usize) % (i + 1);
        v.swap(i, j);
    }
    v
}

#[test]
fn sanity_test() {
    let numbers = shuffled(10000, 0x5eed);
    let mut map = BTreeMap::new();
    let mut s = BTreeSet::<usize>::new();
    numbers.iter().for_each(|&v| {
        assert_eq!(map.insert(v, v), None);
        s.insert(v);
        assert_eq!(
            map.get_all_key_values(),
            s.iter().map(|&v| (v, v)).collect::<Vec<(usize, usize)>>()
        );
        assert_eq!(map.len(), s.len());
    });
    let numbers = shuffled(10000, 0xfeed);
    numbers.iter().for_each(|&v| {
        assert_eq!(map.remove(&v), Some(v));
        s.remove(&v);
        assert_eq!(
            map.get_all_key_values(),
            s.iter().map(|&v| (v, v)).collect::<Vec<(usize, usize)>>()
        );
        assert_eq!(map.len(), s.len());
    });
}
