use linked_lists::doubly::List;

#[test]
fn test_create() {
    let want = vec![3, 4, 0, 1, 2, 5, 6, 7, 8, 9];
    let l = List::from_vec(&want);
    let got = l.to_vec();
    assert_eq!(want, got);
}

#[test]
fn test_rev_iter() {
    let v = vec![3, 4, 0, 1, 2, 5, 6, 7, 8];
    let l = List::from_vec(&v);
    let got: Vec<i64> = l.to_vec_rev();
    let want: Vec<i64> = v.iter().rev().cloned().collect();
    assert_eq!(want, got);
}

#[test]
fn test_concat() {
    let data = vec![3, 8, 1, 2];
    let mut test = data.clone();
    let mut l = List::from_vec(&data);
    for _ in 1..=10 {
        l.concat(List::from_vec(&data));
        test.extend(&data);
    }
    let lvec = l.to_vec();
    assert_eq!(test, lvec);
}

#[test]
fn test_concat_huge() {
    let data_prev = vec![
        3, 8, 1, 2, 9, 5, 12, 6, 3, 1, 0, 7, 6, 5, 4, 3, 1, 6, 8, 9, 5, 3, 2, 1, 5, 7, 8, 4, 6,
    ];
    let mut data = data_prev.clone();
    for _ in 1..10 {
        data.extend(&data_prev);
    }
    let mut test = Box::new(data.clone());
    let mut l = List::from_vec(&data);
    for _ in 1..=100 {
        l.concat(List::from_vec(&data));
        test.extend(data.iter());
    }
    println!("test1");
    let lvec = Box::new(l.to_vec());
    println!("test2");
    assert_eq!(test, lvec);
    println!("test3");
}

#[test]
fn test_pop_first() {
    let v = vec![3, 4, 0, 1, 2, 5, 6, 7, 8];
    let empty: Vec<i64> = Vec::new();
    let mut l = List::from_vec(&v);
    let mut got: Vec<i64> = Vec::new();
    while let Some(val) = l.pop_first() {
        got.push(val);
    }
    assert_eq!(v, got);
    assert_eq!(empty, l.to_vec());
    assert_eq!(empty, l.to_vec_rev());
}

#[test]
fn test_pop_last() {
    let v = vec![3, 4, 0, 1, 2, 5, 6, 7, 8];
    let empty: Vec<i64> = Vec::new();
    let want: Vec<i64> = v.iter().rev().cloned().collect();
    let mut l = List::from_vec(&v);
    let mut got: Vec<i64> = Vec::new();
    while let Some(val) = l.pop_tail() {
        got.push(val);
    }
    assert_eq!(want, got);
    assert_eq!(empty, l.to_vec());
    assert_eq!(empty, l.to_vec_rev());
}

#[test]
fn test_insert_first() {
    let v = vec![3, 4, 0, 1, 2, 5, 6, 7, 8];
    let fv = vec![9, 11, 15, 32];
    let mut l = List::from_vec(&v);
    for elem in fv.iter().rev() {
        l.insert_first(*elem);
    }
    let got: Vec<i64> = l.to_vec();
    let want: Vec<i64> = fv.iter().cloned().chain(v).collect();
    assert_eq!(want, got);

    let got: Vec<i64> = l.to_vec_rev();
    let want: Vec<i64> = want.iter().rev().cloned().collect();
    assert_eq!(want, got);
}

#[test]
fn round_trip_both_directions() {
    let v = vec![3, 4, 0, 1, 2, 5, 6, 7, 8];
    let l = List::from_vec(&v);
    assert_eq!(l.to_vec(), vec![3, 4, 0, 1, 2, 5, 6, 7, 8]);
    assert_eq!(l.to_vec_rev(), vec![8, 7, 6, 5, 2, 1, 0, 4, 3]);
}

#[test]
fn round_trip_empty_and_single() {
    let empty: Vec<i64> = Vec::new();
    let l = List::from_vec(&empty);
    assert_eq!(l.to_vec(), empty);
    assert_eq!(l.to_vec_rev(), empty);
    let l = List::from_vec(&[42]);
    assert_eq!(l.to_vec(), vec![42]);
    assert_eq!(l.to_vec_rev(), vec![42]);
}

#[test]
fn round_trip_extreme_values() {
    let v = vec![i64::MIN, -1, 0, i64::MAX];
    let l = List::from_vec(&v);
    assert_eq!(l.to_vec(), v);
    assert_eq!(l.to_vec_rev(), vec![i64::MAX, 0, -1, i64::MIN]);
}

#[test]
fn slow_from_vec_matches_from_vec() {
    let v = vec![5, 5, -3, 7, 0];
    let slow = List::slow_from_vec(&v);
    let fast = List::from_vec(&v);
    assert_eq!(slow.to_vec(), fast.to_vec());
    assert_eq!(slow.to_vec_rev(), vec![0, 7, -3, 5, 5]);
}

#[test]
fn concat_eleven_copies() {
    let data = vec![3, 8, 1, 2];
    let mut l = List::from_vec(&data);
    for _ in 0..10 {
        l.concat(List::from_vec(&data));
    }
    let got = l.to_vec();
    assert_eq!(got.len(), 44);
    let mut want: Vec<i64> = Vec::new();
    for _ in 0..11 {
        want.extend(&data);
    }
    assert_eq!(got, want);
    let mut rev = want.clone();
    rev.reverse();
    assert_eq!(l.to_vec_rev(), rev);
}

#[test]
fn concat_with_empty_sides() {
    let mut l = List::new();
    l.concat(List::from_vec(&[1, 2]));
    assert_eq!(l.to_vec(), vec![1, 2]);
    assert_eq!(l.peek_end(), Some(2));
    l.concat(List::new());
    assert_eq!(l.to_vec(), vec![1, 2]);
    l.concat(List::from_vec(&[3]));
    assert_eq!(l.to_vec(), vec![1, 2, 3]);
    assert_eq!(l.to_vec_rev(), vec![3, 2, 1]);
    let mut e = List::new();
    e.concat(List::new());
    assert_eq!(e.to_vec(), Vec::<i64>::new());
    assert_eq!(e.pop_first(), None);
}

#[test]
fn concat_then_pop_both_ends() {
    let mut l = List::from_vec(&[1, 2]);
    l.concat(List::from_vec(&[3, 4]));
    assert_eq!(l.pop_tail(), Some(4));
    assert_eq!(l.pop_first(), Some(1));
    assert_eq!(l.to_vec(), vec![2, 3]);
    assert_eq!(l.to_vec_rev(), vec![3, 2]);
}

#[test]
fn insert_first_scenario() {
    let mut l = List::from_vec(&[3, 4, 0, 1, 2]);
    for v in [9, 11, 15, 32].iter().rev() {
        l.insert_first(*v);
    }
    assert_eq!(l.to_vec(), vec![9, 11, 15, 32, 3, 4, 0, 1, 2]);
    assert_eq!(l.to_vec_rev(), vec![2, 1, 0, 4, 3, 32, 15, 11, 9]);
}

#[test]
fn insert_first_into_empty() {
    let mut l = List::new();
    l.insert_first(7);
    assert_eq!(l.peek_front(), Some(7));
    assert_eq!(l.peek_end(), Some(7));
    l.insert_first(6);
    assert_eq!(l.to_vec(), vec![6, 7]);
    assert_eq!(l.to_vec_rev(), vec![7, 6]);
}

#[test]
fn append_then_pop_first_in_order() {
    let vs = vec![10, -2, 33, 10, 5];
    let mut l = List::new();
    for v in &vs {
        l.append(*v);
    }
    let mut got = Vec::new();
    while let Some(v) = l.pop_first() {
        got.push(v);
    }
    assert_eq!(got, vs);
}

#[test]
fn append_then_pop_tail_reversed() {
    let vs = vec![10, -2, 33, 10, 5];
    let mut l = List::new();
    for v in &vs {
        l.append(*v);
    }
    let mut got = Vec::new();
    while let Some(v) = l.pop_tail() {
        got.push(v);
    }
    assert_eq!(got, vec![5, 10, 33, -2, 10]);
}

#[test]
fn drained_list_behaves_as_new() {
    let mut l = List::from_vec(&[1]);
    assert_eq!(l.pop_tail(), Some(1));
    assert_eq!(l.pop_tail(), None);
    assert_eq!(l.pop_first(), None);
    assert_eq!(l.peek_front(), None);
    assert_eq!(l.peek_end(), None);
    l.append(2);
    l.insert_first(1);
    assert_eq!(l.to_vec(), vec![1, 2]);
    let mut m = List::from_vec(&[4, 5, 6]);
    assert_eq!(m.pop_first(), Some(4));
    assert_eq!(m.pop_tail(), Some(6));
    assert_eq!(m.pop_first(), Some(5));
    assert_eq!(m.pop_first(), None);
    assert_eq!(m.to_vec(), Vec::<i64>::new());
    m.append(9);
    assert_eq!(m.to_vec_rev(), vec![9]);
}

#[test]
fn pops_mixed_ends() {
    let mut l = List::from_vec(&[1, 2, 3, 4, 5, 6]);
    assert_eq!(l.pop_first(), Some(1));
    assert_eq!(l.pop_tail(), Some(6));
    l.append(7);
    l.insert_first(0);
    assert_eq!(l.pop_first(), Some(0));
    assert_eq!(l.pop_tail(), Some(7));
    assert_eq!(l.to_vec(), vec![2, 3, 4, 5]);
    assert_eq!(l.to_vec_rev(), vec![5, 4, 3, 2]);
}

#[test]
fn peeks() {
    let l = List::from_vec(&[5, 6, 7]);
    assert_eq!(l.peek_front(), Some(5));
    assert_eq!(l.peek_end(), Some(7));
    let e = List::new();
    assert_eq!(e.peek_front(), None);
    assert_eq!(e.peek_end(), None);
}

#[test]
fn cursors_meet_once_on_equal_values() {
    let l = List::from_vec(&[4, 4, 4]);
    let mut it = l.iter();
    assert_eq!(it.next(), Some(4));
    assert_eq!(it.next_back(), Some(4));
    assert_eq!(it.next(), Some(4));
    assert_eq!(it.next(), None);
    assert_eq!(it.next_back(), None);
}

#[test]
fn cursors_interleaved() {
    let l = List::from_vec(&[1, 2, 3, 4, 5]);
    let mut it = l.iter();
    assert_eq!(it.next_back(), Some(5));
    assert_eq!(it.next(), Some(1));
    assert_eq!(it.next_back(), Some(4));
    assert_eq!(it.next_back(), Some(3));
    assert_eq!(it.next(), Some(2));
    assert_eq!(it.next(), None);
    assert_eq!(it.next_back(), None);
}

#[test]
fn cursors_on_empty_list() {
    let l = List::new();
    let mut it = l.iter();
    assert_eq!(it.next(), None);
    assert_eq!(it.next_back(), None);
}

#[test]
fn iter_mut_writes_in_place() {
    let mut l = List::from_vec(&[1, 2, 3]);
    {
        let mut it = l.iter_mut();
        while let Some(v) = it.next() {
            *v = *v * 10;
        }
    }
    assert_eq!(l.to_vec(), vec![10, 20, 30]);
    assert_eq!(l.to_vec_rev(), vec![30, 20, 10]);
}

#[test]
fn iter_mut_after_pops_follows_links() {
    let mut l = List::from_vec(&[1, 2, 3, 4]);
    l.pop_first();
    l.insert_first(9);
    {
        let mut it = l.iter_mut();
        let first = it.next().unwrap();
        *first = -9;
    }
    assert_eq!(l.to_vec(), vec![-9, 2, 3, 4]);
}

#[test]
fn long_list_drops_without_overflow() {
    let v: Vec<i64> = (0..200_000).collect();
    let l = List::from_vec(&v);
    assert_eq!(l.peek_end(), Some(199_999));
    drop(l);
    let mut m = List::new();
    for i in 0..100_000 {
        m.append(i);
    }
    assert_eq!(m.to_vec().len(), 100_000);
    drop(m);
}

#[test]
fn concat_shorter_receiver_keeps_order() {
    let mut l = List::from_vec(&[1, 2]);
    l.concat(List::from_vec(&[3, 4, 5, 6]));
    assert_eq!(l.to_vec(), vec![1, 2, 3, 4, 5, 6]);
    assert_eq!(l.to_vec_rev(), vec![6, 5, 4, 3, 2, 1]);
    assert_eq!(l.pop_first(), Some(1));
    assert_eq!(l.pop_tail(), Some(6));
    l.append(7);
    assert_eq!(l.to_vec(), vec![2, 3, 4, 5, 7]);
}
