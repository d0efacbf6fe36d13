use veb_map::packed_memory_array::PackedMemoryArray;

#[test]
fn packed_memory_array_test_operations() {
    let mut pma = PackedMemoryArray::new();
    assert_eq!(*pma.get_key_values(), vec![None]);
    assert_eq!(pma.height(), 1);
    assert_eq!(pma.segment_size(), 1);
    assert_eq!(pma.segment_size_log2(), 0);

    assert_eq!(pma.insert(1, (100, 10)), (None, None));
    assert_eq!(*pma.get_key_values(), vec![None, Some((100, 10))]);
    assert_eq!(pma.height(), 2);
    assert_eq!(pma.segment_size(), 1);
    assert_eq!(pma.segment_size_log2(), 0);

    assert_eq!(pma.insert(2, (200, 22)), (None, None));
    assert_eq!(
        *pma.get_key_values(),
        vec![None, Some((100, 10)), None, Some((200, 22))]
    );
    assert_eq!(pma.height(), 2);
    assert_eq!(pma.segment_size(), 2);
    assert_eq!(pma.segment_size_log2(), 1);

    assert_eq!(pma.insert(3, (150, 11)), (None, Some((0, 4))));
    assert_eq!(
        *pma.get_key_values(),
        vec![None, Some((100, 10)), Some((150, 11)), Some((200, 22))]
    );
    assert_eq!(pma.height(), 2);
    assert_eq!(pma.segment_size(), 2);
    assert_eq!(pma.segment_size_log2(), 1);

    assert_eq!(pma.insert(0, (88, 8)), (None, None));
    assert_eq!(
        *pma.get_key_values(),
        vec![
            None,
            Some((88, 8)),
            None,
            Some((100, 10)),
            None,
            Some((150, 11)),
            None,
            Some((200, 22))
        ],
    );
    assert_eq!(pma.height(), 3);
    assert_eq!(pma.segment_size(), 2);
    assert_eq!(pma.segment_size_log2(), 1);

    assert_eq!(pma.insert(2, (99, 9)), (None, Some((0, 4))));
    assert_eq!(
        *pma.get_key_values(),
        vec![
            None,
            Some((88, 8)),
            Some((99, 9)),
            Some((100, 10)),
            None,
            Some((150, 11)),
            None,
            Some((200, 22))
        ],
    );
    assert_eq!(pma.height(), 3);
    assert_eq!(pma.segment_size(), 2);
    assert_eq!(pma.segment_size_log2(), 1);

    assert_eq!(pma.insert(8, (250, 25)), (None, Some((4, 8))));
    assert_eq!(
        *pma.get_key_values(),
        vec![
            None,
            Some((88, 8)),
            Some((99, 9)),
            Some((100, 10)),
            None,
            Some((150, 11)),
            Some((200, 22)),
            Some((250, 25))
        ]
    );
    assert_eq!(pma.height(), 3);
    assert_eq!(pma.segment_size(), 2);
    assert_eq!(pma.segment_size_log2(), 1);

    assert_eq!(pma.insert(6, (166, 66)), (None, None));
    assert_eq!(
        *pma.get_key_values(),
        vec![
            None,
            None,
            Some((88, 8)),
            None,
            None,
            Some((99, 9)),
            None,
            Some((100, 10)),
            None,
            Some((150, 11)),
            None,
            Some((166, 66)),
            None,
            Some((200, 22)),
            None,
            Some((250, 25))
        ]
    );
    assert_eq!(pma.height(), 3);
    assert_eq!(pma.segment_size(), 4);
    assert_eq!(pma.segment_size_log2(), 2);

    assert_eq!(pma.insert(13, (199, 19)), (None, Some((12, 16))));
    assert_eq!(
        *pma.get_key_values(),
        vec![
            None,
            None,
            Some((88, 8)),
            None,
            None,
            Some((99, 9)),
            None,
            Some((100, 10)),
            None,
            Some((150, 11)),
            None,
            Some((166, 66)),
            None,
            Some((199, 19)),
            Some((200, 22)),
            Some((250, 25))
        ]
    );
    assert_eq!(pma.height(), 3);
    assert_eq!(pma.segment_size(), 4);
    assert_eq!(pma.segment_size_log2(), 2);

    assert_eq!(pma.remove(13), (Some(19), Some((12, 16))));
    assert_eq!(
        *pma.get_key_values(),
        vec![
            None,
            None,
            Some((88, 8)),
            None,
            None,
            Some((99, 9)),
            None,
            Some((100, 10)),
            None,
            Some((150, 11)),
            None,
            Some((166, 66)),
            None,
            Some((200, 22)),
            None,
            Some((250, 25))
        ]
    );
    assert_eq!(pma.height(), 3);
    assert_eq!(pma.segment_size(), 4);
    assert_eq!(pma.segment_size_log2(), 2);

    assert_eq!(pma.remove(11), (Some(66), None));
    assert_eq!(
        *pma.get_key_values(),
        vec![
            None,
            Some((88, 8)),
            None,
            Some((99, 9)),
            Some((100, 10)),
            Some((150, 11)),
            Some((200, 22)),
            Some((250, 25))
        ]
    );
    assert_eq!(pma.height(), 3);
    assert_eq!(pma.segment_size(), 2);
    assert_eq!(pma.segment_size_log2(), 1);

    assert_eq!(pma.remove(7), (Some(25), Some((6, 8))));
    assert_eq!(
        *pma.get_key_values(),
        vec![
            None,
            Some((88, 8)),
            None,
            Some((99, 9)),
            Some((100, 10)),
            Some((150, 11)),
            None,
            Some((200, 22))
        ]
    );
    assert_eq!(pma.height(), 3);
    assert_eq!(pma.segment_size(), 2);
    assert_eq!(pma.segment_size_log2(), 1);

    assert_eq!(pma.remove(4), (Some(10), Some((4, 6))));
    assert_eq!(
        *pma.get_key_values(),
        vec![
            None,
            Some((88, 8)),
            None,
            Some((99, 9)),
            None,
            Some((150, 11)),
            None,
            Some((200, 22))
        ]
    );
    assert_eq!(pma.height(), 3);
    assert_eq!(pma.segment_size(), 2);
    assert_eq!(pma.segment_size_log2(), 1);

    assert_eq!(pma.remove(1), (Some(8), None));
    assert_eq!(
        *pma.get_key_values(),
        vec![None, Some((99, 9)), Some((150, 11)), Some((200, 22))]
    );
    assert_eq!(pma.height(), 2);
    assert_eq!(pma.segment_size(), 2);
    assert_eq!(pma.segment_size_log2(), 1);

    assert_eq!(pma.remove(1), (Some(9), Some((0, 4))));
    assert_eq!(
        *pma.get_key_values(),
        vec![None, Some((150, 11)), None, Some((200, 22))]
    );
    assert_eq!(pma.height(), 2);
    assert_eq!(pma.segment_size(), 2);
    assert_eq!(pma.segment_size_log2(), 1);

    assert_eq!(pma.remove(3), (Some(22), None));
    assert_eq!(*pma.get_key_values(), vec![None, Some((150, 11))]);
    assert_eq!(pma.height(), 2);
    assert_eq!(pma.segment_size(), 1);
    assert_eq!(pma.segment_size_log2(), 0);

    assert_eq!(pma.remove(1), (Some(11), None));
    assert_eq!(*pma.get_key_values(), vec![None]);
    assert_eq!(pma.height(), 1);
    assert_eq!(pma.segment_size(), 1);
    assert_eq!(pma.segment_size_log2(), 0);
}

#[test]
fn test_restrictions() {
    let mut pma = PackedMemoryArray::new();
    for i in 0usize..10000usize {
        pma.insert(pma.data_len(), (i, i));
        assert!(pma.height() - 1 >= pma.segment_size_log2());
        assert!(pma.height() - 1 - pma.segment_size_log2() <= 1);
        assert!(pma.segment_size() == (1 << pma.segment_size_log2()));
        assert!(pma.data_len() == pma.get_key_values().len());
        assert!(pma.data_len() == pma.segment_size() * (1 << (pma.height() - 1)));
        let v = pma
            .get_key_values()
            .iter()
            .filter_map(|&v| v)
            .collect::<Vec<(usize, usize)>>();
        assert_eq!(v.len(), i + 1);
        v.iter()
            .enumerate()
            .for_each(|(i, &v)| assert_eq!(v, (i, i)));
    }
    assert_eq!(pma.data_len(), 16384);
    for i in 0usize..10000usize {
        let pos = pma.get_key_values().iter().position(|v| v.is_some()).unwrap();
        pma.remove(pos);
        assert!(pma.height() - 1 >= pma.segment_size_log2());
        assert!(pma.height() - 1 - pma.segment_size_log2() <= 1);
        assert!(pma.segment_size() == (1 << pma.segment_size_log2()));
        assert!(pma.data_len() == pma.get_key_values().len());
        assert!(pma.data_len() == pma.segment_size() * (1 << (pma.height() - 1)));
        let v = pma
            .get_key_values()
            .iter()
            .filter_map(|&v| v)
            .collect::<Vec<(usize, usize)>>();
        assert_eq!(v.len(), 9999 - i);
        for j in 1..v.len() {
            assert!(v[j - 1].1 < v[j].1);
        }
    }
    assert_eq!(pma.data_len(), 1);
}

/// Checks the density bound that the array claims for the window it just
/// rebalanced: the reported window meets its depth's upper bound after an
/// insert and its lower bound after a removal.
fn check_reported_window(
    pma: &PackedMemoryArray,
    report: Option<(usize, usize)>,
    was_insert: bool,
) {
    let Some((f, t)) = report else { return };
    let h = pma.height();
    let size = t - f;
    let mut depth = h - 1;
    let mut w = pma.segment_size();
    while w < size {
        w *= 2;
        depth -= 1;
    }
    assert_eq!(w, size);
    let count = pma.get_key_values()[f..t]
        .iter()
        .filter(|s| s.is_some())
        .count();
    if was_insert {
        assert!(
            count * 4 * h <= size * (3 * h + depth),
            "upper bound broken at depth {depth} window {f}"
        );
    } else {
        assert!(
            count * 4 * h >= size * (2 * h - depth),
            "lower bound broken at depth {depth} window {f}"
        );
    }
}

fn check_sorted_live(pma: &PackedMemoryArray, expected_live: usize) {
    let keys: Vec<usize> = pma
        .get_key_values()
        .iter()
        .filter_map(|s| s.map(|kv| kv.0))
        .collect();
    assert_eq!(keys.len(), expected_live);
    for j in 1..keys.len() {
        assert!(keys[j - 1] < keys[j]);
    }
    assert!(pma.segment_size() == (1 << pma.segment_size_log2()));
    assert!(pma.height() - 1 >= pma.segment_size_log2());
    assert!(pma.height() - 1 - pma.segment_size_log2() <= 1);
    assert!(pma.data_len() == pma.segment_size() * (1 << (pma.height() - 1)));
}

#[test]
fn test_density_trace() {
    let mut pma = PackedMemoryArray::new();
    let mut smallest = 1000usize;
    let mut largest = 999usize;
    let mut live = 0usize;
    for k in 1000usize..1128 {
        let pos = pma
            .get_key_values()
            .iter()
            .rposition(|s| s.is_some())
            .map(|p| p + 1)
            .unwrap_or(0);
        let (old, report) = pma.insert(pos, (k, k));
        assert_eq!(old, None);
        live += 1;
        check_reported_window(&pma, report, true);
        check_sorted_live(&pma, live);
        largest = k;
    }
    for _ in 0..128 {
        let pos = pma.get_key_values().iter().position(|s| s.is_some()).unwrap();
        assert_eq!(pma.get_key_values()[pos].map(|kv| kv.0), Some(smallest));
        let (old, report) = pma.remove(pos);
        assert_eq!(old, Some(smallest));
        check_reported_window(&pma, report, false);
        check_sorted_live(&pma, live - 1);
        smallest += 1;
        let pos = pma
            .get_key_values()
            .iter()
            .rposition(|s| s.is_some())
            .map(|p| p + 1)
            .unwrap_or(0);
        largest += 1;
        let (old, report) = pma.insert(pos, (largest, largest));
        assert_eq!(old, None);
        check_reported_window(&pma, report, true);
        check_sorted_live(&pma, live);
    }
}
