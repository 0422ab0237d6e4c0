use rip_shuffle::blocked::slicing::{Slicing, Span};

#[test]
fn prefix_and_suffix() {
    const N: usize = 5;

    for len_pref in 0..N {
        let len_suffix = N - len_pref;

        let data: Vec<_> = (0..N)
            .into_iter()
            .map(|i| (i < len_pref) as usize)
            .collect();
        let whole = Span::new(0, data.len());

        assert_eq!(whole.prefix(len_pref).len(), len_pref);
        assert!(whole.prefix(len_pref).slice(&data).iter().all(|x| *x == 1));

        assert_eq!(whole.suffix(len_suffix).len(), len_suffix);
        assert!(whole.suffix(len_suffix).slice(&data).iter().all(|x| *x == 0));
    }
}

#[test]
fn slicing_is_neighbor() {
    const N: usize = 8;

    for begin0 in 0..N {
        for begin1 in 0..N {
            for end0 in begin0..N {
                for end1 in begin1..N {
                    let slice0 = Span::new(begin0, end0);
                    let slice1 = Span::new(begin1, end1);

                    assert_eq!(slice0.is_left_neighbor_of(&slice1), end0 == begin1);
                    assert_eq!(slice1.is_left_neighbor_of(&slice0), end1 == begin0);
                }
            }
        }
    }

}

#[test]
fn is_neighbor() {
    const N: usize = 8;

    for begin0 in 0..N {
        for end0 in (begin0 + 1)..N {
            for begin1 in end0..N {
                for end1 in (begin1 + 1)..N {
                    let slice0 = Span::new(begin0, end0);
                    let slice1 = Span::new(begin1, end1);

                    assert_eq!(slice0.len(), end0 - begin0);
                    assert_eq!(slice1.len(), end1 - begin1);

                    assert_eq!(slice0.is_left_neighbor_of(&slice1), end0 == begin1);
                }
            }
        }
    }
}

#[test]
fn slicing_merge_with_right_neighbor() {
    for total_len in [1, 2, 3, 10] {
        for left_len in 0..total_len {
            let mut data = vec![0usize; total_len];

            let left = Span::new(0, left_len);
            let right = Span::new(left_len, total_len);
            right.slice_mut(&mut data).iter_mut().for_each(|x| *x = 1);

            let merged = left.merge_with_right_neighbor(right);

            assert_eq!(merged.len(), total_len);
            assert!(merged.prefix(left_len).slice(&data).iter().all(|x| *x == 0));
            assert_eq!(merged.slice(&data).iter().sum::<usize>(), total_len - left_len);
        }
    }
}

#[test]
fn merge_with_right_neighbor() {
    for total_len in [1, 2, 3, 10] {
        for left_len in 0..total_len {
            let mut data = vec![0; total_len];

            let left = Span::new(0, left_len);
            let right = Span::new(left_len, total_len);
            right.slice_mut(&mut data).iter_mut().for_each(|x| *x = 1);

            let merged = left.merge_with_right_neighbor(right);

            assert_eq!(merged.len(), total_len);
            assert!(merged
                .prefix(left_len)
                .slice_mut(&mut data)
                .iter()
                .all(|x| *x == 0));
            assert_eq!(
                merged.slice_mut(&mut data).iter().sum::<usize>(),
                total_len - left_len
            );
        }
    }
}

#[test]
fn partial_merge_with_right_neighbor() {
    for total_len in [1, 2, 3, 10] {
        let mut data: Vec<_> = (0..total_len).into_iter().collect();
        for left_len in 0..total_len {
            let right_len = total_len - left_len;

            for to_move in 0..left_len {
                let mut left = Span::new(0, left_len);
                let mut right = Span::new(left_len, total_len);

                left.partial_merge_with_right_neighbor(&mut right, to_move);

                assert_eq!(left.len(), left_len - to_move);
                assert_eq!(right.len(), right_len + to_move);

                assert!(left.is_left_neighbor_of(&right));

                assert!(left
                    .slice_mut(&mut data)
                    .iter()
                    .enumerate()
                    .all(|(i, &x)| i == x));
                assert!(right
                    .slice_mut(&mut data)
                    .iter()
                    .enumerate()
                    .all(|(i, &x)| i + left_len - to_move == x));
            }
        }
    }
}

#[test]
fn slicing_partial_merge_with_right_neighbor() {
    for total_len in [1, 2, 3, 10] {
        let data: Vec<_> = (0..total_len).into_iter().collect();
        for left_len in 0..total_len {
            let right_len = total_len - left_len;

            for to_move in 0..left_len {
                let mut left = Span::new(0, left_len);
                let mut right = Span::new(left_len, total_len);

                left.partial_merge_with_right_neighbor(&mut right, to_move);

                assert_eq!(left.len(), left_len - to_move);
                assert_eq!(right.len(), right_len + to_move);

                assert!(left.is_left_neighbor_of(&right));

                assert!(left.slice(&data).iter().enumerate().all(|(i, &x)| i == x));
                assert!(right
                    .slice(&data)
                    .iter()
                    .enumerate()
                    .all(|(i, &x)| i + left_len - to_move == x));
            }
        }
    }
}

#[test]
fn give_to_left_neighbor_moves_the_boundary_right() {
    let mut left = Span::new(2, 5);
    let mut right = Span::new(5, 9);
    right.give_to_left_neighbor(&mut left, 3);
    assert_eq!((left.start, left.end), (2, 8));
    assert_eq!((right.start, right.end), (8, 9));
    assert!(!right.is_empty());
}

#[test]
fn prefix() {
    let mut data = vec![0; 5];
    Span::new(0, 5)
        .prefix(2)
        .slice_mut(&mut data)
        .iter_mut()
        .for_each(|x| *x = 1);

    assert_eq!(data, vec![1, 1, 0, 0, 0]);
}

#[test]
fn suffix() {
    let mut data = vec![0; 5];
    Span::new(0, 5)
        .suffix(2)
        .slice_mut(&mut data)
        .iter_mut()
        .for_each(|x| *x = 1);

    assert_eq!(data, vec![0, 0, 0, 1, 1]);
}

#[test]
fn combined() {
    let mut data = vec![0; 5];
    Span::new(0, 5)
        .suffix(4)
        .prefix(2)
        .slice_mut(&mut data)
        .iter_mut()
        .for_each(|x| *x = 1);

    assert_eq!(data, vec![0, 1, 1, 0, 0]);
}
