use veb_map::segment::count_range;
use veb_map::segment::remove_key_value;
use veb_map::segment::insert_key_value;
use veb_map::segment::move_all_key_values_to_front;
use veb_map::segment::shuffle_key_values;

#[test]
fn segment_test_operations() {
    let mut v: Vec<Option<(usize, usize)>> = vec![None; 5];
    assert_eq!(count_range(&v, 0, 5), 0);

    insert_key_value(&mut v, 0, 5, 3, (11, 1111));
    assert_eq!(v, [None, None, None, Some((11, 1111)), None]);
    assert_eq!(count_range(&v, 0, 5), 1);

    insert_key_value(&mut v, 0, 5, 2, (8, 888));
    assert_eq!(v, [None, None, Some((8, 888)), Some((11, 1111)), None]);
    assert_eq!(count_range(&v, 0, 5), 2);

    insert_key_value(&mut v, 0, 5, 3, (10, 1010));
    assert_eq!(
        v,
        [None, None, Some((8, 888)), Some((10, 1010)), Some((11, 1111)),]
    );
    assert_eq!(count_range(&v, 0, 5), 3);

    insert_key_value(&mut v, 0, 5, 3, (9, 999));
    assert_eq!(
        v,
        [
            None,
            Some((8, 888)),
            Some((9, 999)),
            Some((10, 1010)),
            Some((11, 1111))
        ]
    );
    assert_eq!(count_range(&v, 0, 5), 4);

    insert_key_value(&mut v, 0, 5, 5, (12, 1212));
    assert_eq!(
        v,
        [
            Some((8, 888)),
            Some((9, 999)),
            Some((10, 1010)),
            Some((11, 1111)),
            Some((12, 1212)),
        ]
    );

    remove_key_value(&mut v, 0);
    assert_eq!(
        v,
        [
            None,
            Some((9, 999)),
            Some((10, 1010)),
            Some((11, 1111)),
            Some((12, 1212)),
        ]
    );
    assert_eq!(count_range(&v, 0, 5), 4);

    remove_key_value(&mut v, 2);
    assert_eq!(
        v,
        [
            None,
            Some((9, 999)),
            None,
            Some((11, 1111)),
            Some((12, 1212)),
        ]
    );
    assert_eq!(count_range(&v, 0, 5), 3);

    insert_key_value(&mut v, 0, 5, 5, (15, 1515));
    assert_eq!(
        v,
        [
            None,
            Some((9, 999)),
            Some((11, 1111)),
            Some((12, 1212)),
            Some((15, 1515)),
        ]
    );
    assert_eq!(count_range(&v, 0, 5), 4);

    remove_key_value(&mut v, 2);
    assert_eq!(
        v,
        [
            None,
            Some((9, 999)),
            None,
            Some((12, 1212)),
            Some((15, 1515)),
        ]
    );
    assert_eq!(count_range(&v, 0, 5), 3);

    shuffle_key_values(&mut v, 0, 5, 3, true);
    assert_eq!(
        v,
        [
            None,
            Some((9, 999)),
            None,
            Some((12, 1212)),
            Some((15, 1515)),
        ]
    );
    assert_eq!(count_range(&v, 0, 5), 3);

    remove_key_value(&mut v, 4);
    assert_eq!(v, [None, Some((9, 999)), None, Some((12, 1212)), None,]);
    assert_eq!(count_range(&v, 0, 5), 2);

    shuffle_key_values(&mut v, 0, 5, 2, true);
    assert_eq!(v, [None, None, Some((9, 999)), None, Some((12, 1212)),]);
    assert_eq!(count_range(&v, 0, 5), 2);

    move_all_key_values_to_front(&mut v, 0, 5);
    assert_eq!(v, [Some((9, 999)), Some((12, 1212)), None, None, None,]);
    assert_eq!(count_range(&v, 0, 5), 2);
}
