use rip_shuffle::blocked::block::Block;
use rip_shuffle::blocked::slicing::Span;

#[derive(Copy, Clone, Debug, PartialEq, Eq)]
enum Item {
    Unint,
    ProcL,
    ProcR,
    Stash,
}

fn two_blocks(left_len: usize, total_len: usize) -> (Block, Block) {
    (
        Block::new(Span::new(0, left_len)),
        Block::new(Span::new(left_len, total_len)),
    )
}

#[test]
fn shrink_to_right() {
    const TOTAL_LEN: usize = 10;
    let mut data = vec![Item::Unint; TOTAL_LEN];
    for left_len in 0..TOTAL_LEN {
        let right_len = TOTAL_LEN - left_len;

        for left_stash_len in 0..left_len {
            for left_shrinkage in 0..left_stash_len {
                for right_stash_len in 0..right_len {
                    let (mut left, mut right) = two_blocks(left_len, TOTAL_LEN);

                    left.set_num_processed(left_len - left_stash_len);
                    right.set_num_processed(right_len - right_stash_len);

                    left.data_processed_mut(&mut data).fill(Item::ProcL);
                    left.data_unprocessed_mut(&mut data).fill(Item::Stash);
                    right.data_processed_mut(&mut data).fill(Item::ProcR);
                    right.data_unprocessed_mut(&mut data).fill(Item::Stash);

                    left.shrink_to_right(&mut right, &mut data, left_shrinkage);

                    assert_eq!(left.len(), left_len - left_shrinkage);
                    assert_eq!(right.len(), right_len + left_shrinkage);

                    assert_eq!(left.num_unprocessed(), left_stash_len - left_shrinkage);
                    assert_eq!(right.num_unprocessed(), right_stash_len + left_shrinkage);

                    assert!(left.data_processed(&data).iter().all(|&x| x == Item::ProcL));
                    assert!(right.data_processed(&data).iter().all(|&x| x == Item::ProcR));

                    assert!(left
                        .data_unprocessed_mut(&mut data)
                        .iter()
                        .all(|&x| x == Item::Stash));

                    assert!(right
                        .data_unprocessed_mut(&mut data)
                        .iter()
                        .all(|&x| x == Item::Stash));
                }
            }
        }
    }
}

#[test]
fn grow_from_right() {
    const TOTAL_LEN: usize = 10;
    let mut data = vec![Item::Unint; TOTAL_LEN];
    for left_len in 0..TOTAL_LEN {
        let right_len = TOTAL_LEN - left_len;

        for left_stash_len in 0..left_len {
            for right_stash_len in 0..right_len {
                for left_growth in 0..right_stash_len {
                    let (mut left, mut right) = two_blocks(left_len, TOTAL_LEN);

                    left.set_num_processed(left_len - left_stash_len);
                    right.set_num_processed(right_len - right_stash_len);

                    left.data_processed_mut(&mut data).fill(Item::ProcL);
                    left.data_unprocessed_mut(&mut data).fill(Item::Stash);
                    right.data_processed_mut(&mut data).fill(Item::ProcR);
                    right.data_unprocessed_mut(&mut data).fill(Item::Stash);

                    left.grow_from_right(&mut right, &mut data, left_growth);

                    assert_eq!(left.len(), left_len + left_growth);
                    assert_eq!(right.len(), right_len - left_growth);

                    assert_eq!(left.num_unprocessed(), left_stash_len + left_growth);
                    assert_eq!(right.num_unprocessed(), right_stash_len - left_growth);

                    assert!(left.data_processed(&data).iter().all(|&x| x == Item::ProcL));
                    assert!(right.data_processed(&data).iter().all(|&x| x == Item::ProcR));

                    assert!(left
                        .data_unprocessed_mut(&mut data)
                        .iter()
                        .all(|&x| x == Item::Stash));

                    assert!(right
                        .data_unprocessed_mut(&mut data)
                        .iter()
                        .all(|&x| x == Item::Stash));
                }
            }
        }
    }
}

#[test]
fn shrink_to_right_then_grow_from_right_restores() {
    let mut data: Vec<usize> = (0..10).collect();
    let mut left = Block::new_with_num_unprocessed(Span::new(0, 6), 2);
    let mut right = Block::new_with_num_unprocessed(Span::new(6, 10), 1);

    left.shrink_to_right(&mut right, &mut data, 2);
    assert_eq!((left.len(), right.len()), (4, 6));
    assert_eq!(data, vec![0, 1, 2, 3, 7, 8, 6, 4, 5, 9]);
    left.grow_from_right(&mut right, &mut data, 2);

    assert_eq!((left.len(), right.len()), (6, 4));
    assert_eq!((left.num_unprocessed(), right.num_unprocessed()), (2, 1));
    assert_eq!(data, (0..10).collect::<Vec<usize>>());
}

#[test]
fn len() {
    for i in 0..4 {
        let data = vec![0; i];
        let block = Block::new(Span::new(0, data.len()));

        assert_eq!(block.len(), i);
        assert_eq!(block.is_empty(), i == 0);
    }
}

#[test]
fn is_fully_processed() {
    for i in 0usize..4 {
        let data: Vec<_> = (0..i).collect();
        let mut block = Block::new(Span::new(0, data.len()));

        for j in 0..i {
            assert!(!block.is_fully_processed());
            assert_eq!(block.num_processed(), j);
            assert_eq!(block.num_unprocessed(), i - j);
            assert_eq!(data[block.first_unprocessed().unwrap()], j);
            assert_eq!(block.process_element().is_some(), j + 1 < i);
        }

        assert!(block.is_fully_processed());
    }
}

#[test]
fn data() {
    fn ref_vec(len: usize, processed: usize) -> Vec<usize> {
        (1..=processed + 1)
            .into_iter()
            .chain(std::iter::repeat(0))
            .take(len)
            .collect()
    }

    for i in 0usize..4 {
        let mut data: Vec<_> = vec![0; i];
        let mut block = Block::new(Span::new(0, data.len()));

        for j in 0..i {
            data[block.first_unprocessed().unwrap()] = j + 1;
            block.process_element();

            // data
            assert_eq!(Vec::from(block.data(&data)), ref_vec(i, j));
            assert_eq!(Vec::from(block.data_mut(&mut data)), ref_vec(i, j));

            // data_processed
            assert_eq!(block.data_processed(&data).len(), j + 1);
            assert_eq!(block.data_processed_mut(&mut data).len(), j + 1);
            assert!(block
                .data_processed(&data)
                .iter()
                .enumerate()
                .all(|(i, x)| i + 1 == *x));
            assert!(block
                .data_processed_mut(&mut data)
                .iter()
                .enumerate()
                .all(|(i, x)| i + 1 == *x));

            // data_unprocessed
            assert_eq!(block.data_unprocessed(&data).len(), i - j - 1);
            assert_eq!(block.data_unprocessed_mut(&mut data).len(), i - j - 1);
            assert!(block.data_unprocessed(&data).iter().all(|x| *x == 0));
            assert!(block.data_unprocessed_mut(&mut data).iter().all(|x| *x == 0));
        }

        assert!(block.is_fully_processed());
    }
}

#[test]
fn move_stash_to_right_neighbor() {
    for total_len in [1usize, 2, 3, 5, 8, 12] {
        for left_len in 0..total_len {
            let right_len = total_len - left_len;

            for left_stash in 0..=left_len {
                for right_stash in 0..=right_len {
                    let mut data = vec![0; total_len];

                    let left_block =
                        Block::new_with_num_unprocessed(Span::new(0, left_len), left_stash);
                    let right_block = Block::new_with_num_unprocessed(
                        Span::new(left_len, total_len),
                        right_stash,
                    );

                    left_block.data_processed_mut(&mut data).fill(1);
                    right_block.data_processed_mut(&mut data).fill(2);

                    let merged = left_block.merge_with_right_neighbor(right_block, &mut data);

                    assert_eq!(merged.len(), total_len);
                    assert_eq!(merged.num_unprocessed(), left_stash + right_stash);

                    assert!(merged.data_processed(&data).iter().all(|x| *x > 0));
                    assert!(merged.data_unprocessed(&data).iter().all(|x| *x == 0));

                    assert_eq!(
                        merged.data_processed(&data).iter().sum::<usize>(),
                        (left_len - left_stash) + 2 * (right_len - right_stash)
                    );
                }
            }
        }
    }
}

#[test]
fn pop_and_push_move_the_end_of_a_block() {
    let mut block = Block::new(Span::new(3, 6));
    assert_eq!(block.pop(), Some(5));
    assert_eq!(block.len(), 2);
    block.push(5);
    assert_eq!(block.len(), 3);

    let mut empty = Block::default();
    assert!(empty.is_empty());
    assert_eq!(empty.pop(), None);
}

#[test]
fn split_in_half_keeps_processed_positions_in_place() {
    let mut left = Block::new_with_num_unprocessed(Span::new(10, 17), 2);
    let right = left.split_in_half();
    assert_eq!((left.span.start, left.span.end), (10, 13));
    assert_eq!((right.span.start, right.span.end), (13, 17));
    assert_eq!((left.num_processed(), right.num_processed()), (3, 2));
    assert!(left.is_left_neighbor_of(&right));
    assert!(!right.is_left_neighbor_of(&left));
}
