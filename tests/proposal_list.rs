use pcg_rand::Pcg64;
use rand::prelude::IteratorRandom;
use rand::SeedableRng;
use rust_nlpa::proposal_list::{ProposalError, ProposalList, Sampler, Writer, BLOCK_SIZE, UNINITIALIZED};

fn assert_compact(list: &ProposalList, end: usize) {
    assert_eq!(list.begin_of_next_block(), end);
    for i in 0..end {
        assert_ne!(list.cell(i), UNINITIALIZED, "cell {} below the end is unused", i);
    }
    for i in end..list.capacity() {
        assert_eq!(list.cell(i), UNINITIALIZED, "cell {} behind the end is used", i);
    }
}

/// Each rank pushes its share of ids in rounds of random length; after a
/// round every rank releases its block and the list is compacted. The ranks
/// take their turns one after another within a round.
fn run_randomized(size: usize, num_threads: usize) {
    let mut list = ProposalList::new(size, num_threads);
    let elements_to_push = size / num_threads;

    let mut rounds: Vec<Vec<usize>> = Vec::new();
    let mut producers: Vec<Writer> = Vec::new();
    let mut next_id: Vec<usize> = Vec::new();
    for rank in 0..num_threads {
        let mut rng = Pcg64::seed_from_u64((rank * 34532 + 12345 + size + num_threads) as u64);
        let mut inds = (0..elements_to_push).choose_multiple(&mut rng, 10);
        inds.sort_unstable();
        inds.push(elements_to_push);
        rounds.push(inds.windows(2).map(|w| w[1] - w[0]).collect());
        producers.push(Writer::new(&mut list).unwrap());
        next_id.push(elements_to_push * rank);
    }

    let num_rounds = rounds[0].len();
    let mut pushed: Vec<usize> = Vec::new();
    for round in 0..num_rounds {
        for rank in 0..num_threads {
            for _ in 0..rounds[rank][round] {
                producers[rank].push(&mut list, next_id[rank], 1).unwrap();
                pushed.push(next_id[rank]);
                next_id[rank] += 1;
            }
            producers[rank].free_unfinished_range(&mut list);
        }

        assert!(list.check_unfinished_ranges());
        let end = list.compact_unfinished_ranges();
        assert_compact(&list, end);
        assert_eq!(end, pushed.len());
    }

    let mut ids: Vec<usize> = (0..list.begin_of_next_block()).map(|i| list.cell(i)).collect();
    ids.sort_unstable();
    pushed.sort_unstable();
    assert_eq!(ids, pushed);
}

const SIZES: [usize; 12] = [10, 20, 30, 40, 50, 100, 200, 300, 400, 500, 1000, 10000];

#[test]
fn randomized_seq() {
    for size in SIZES {
        run_randomized(size, 1);
    }
}

#[test]
fn randomized_two_threads() {
    for size in SIZES {
        run_randomized(size, 2);
    }
}

#[test]
fn randomized_many_threads() {
    for threads in 3..16 {
        for size in SIZES {
            run_randomized(size, threads);
        }
    }
}

#[test]
fn new_list_is_unused() {
    let list = ProposalList::new(10, 2);
    assert_eq!(list.capacity(), 10 + 2 * 2 * BLOCK_SIZE);
    assert_eq!(list.begin_of_next_block(), 0);
    for i in 0..list.capacity() {
        assert_eq!(list.cell(i), UNINITIALIZED);
    }
}

#[test]
fn unbuffered_push_appends_at_cursor() {
    let mut list = ProposalList::new(0, 1);
    assert_eq!(list.unbuffered_push(7, 3), Ok(()));
    assert_eq!(list.unbuffered_push(9, 2), Ok(()));
    assert_eq!(list.begin_of_next_block(), 5);
    let cells: Vec<usize> = (0..6).map(|i| list.cell(i)).collect();
    assert_eq!(cells, vec![7, 7, 7, 9, 9, UNINITIALIZED]);
}

#[test]
fn unbuffered_push_beyond_capacity_is_refused() {
    let mut list = ProposalList::new(0, 1);
    assert_eq!(list.unbuffered_push(1, 2 * BLOCK_SIZE + 1), Err(ProposalError::CapacityExceeded));
    assert_eq!(list.begin_of_next_block(), 0);
    assert_eq!(list.cell(0), UNINITIALIZED);
    assert_eq!(list.unbuffered_push(1, 2 * BLOCK_SIZE), Ok(()));
    assert_eq!(list.begin_of_next_block(), 2 * BLOCK_SIZE);
}

#[test]
fn writer_fills_block_then_reserves_next() {
    let mut list = ProposalList::new(1000, 1);
    let mut writer = Writer::new(&mut list).unwrap();
    writer.push(&mut list, 4, 3).unwrap();
    // the first block is reserved whole
    assert_eq!(list.begin_of_next_block(), BLOCK_SIZE);
    assert_eq!(list.cell(0), 4);
    assert_eq!(list.cell(2), 4);
    assert_eq!(list.cell(3), UNINITIALIZED);
    writer.push(&mut list, 5, BLOCK_SIZE).unwrap();
    assert_eq!(list.begin_of_next_block(), 2 * BLOCK_SIZE);
    assert_eq!(list.cell(3), 5);
    assert_eq!(list.cell(BLOCK_SIZE + 2), 5);
    assert_eq!(list.cell(BLOCK_SIZE + 3), UNINITIALIZED);
}

#[test]
fn writer_push_beyond_capacity_is_refused() {
    let mut list = ProposalList::new(0, 1);
    let mut writer = Writer::new(&mut list).unwrap();
    // a block must end before the last cell: only one of the two fits
    assert_eq!(writer.push(&mut list, 1, BLOCK_SIZE + 1), Err(ProposalError::CapacityExceeded));
    assert_eq!(list.begin_of_next_block(), 0);
    assert_eq!(writer.push(&mut list, 1, BLOCK_SIZE), Ok(()));
    assert_eq!(list.begin_of_next_block(), BLOCK_SIZE);
}

#[test]
fn writers_are_limited_to_the_slots() {
    let mut list = ProposalList::new(0, 2);
    assert!(Writer::new(&mut list).is_some());
    assert!(Writer::new(&mut list).is_some());
    assert!(Writer::new(&mut list).is_none());
}

#[test]
fn compaction_moves_tail_into_gaps() {
    let mut list = ProposalList::new(1000, 2);
    let mut a = Writer::new(&mut list).unwrap();
    let mut b = Writer::new(&mut list).unwrap();
    a.push(&mut list, 1, 2).unwrap(); // block [0, 128)
    b.push(&mut list, 2, BLOCK_SIZE).unwrap(); // block [128, 256), full
    a.free_unfinished_range(&mut list);
    b.free_unfinished_range(&mut list);
    let end = list.compact_unfinished_ranges();
    assert_eq!(end, 2 + BLOCK_SIZE);
    assert_compact(&list, end);
    // the cells before the first gap stay
    assert_eq!((list.cell(0), list.cell(1)), (1, 1));
    let ones = (0..end).filter(|&i| list.cell(i) == 1).count();
    let twos = (0..end).filter(|&i| list.cell(i) == 2).count();
    assert_eq!((ones, twos), (2, BLOCK_SIZE));
}

#[test]
fn compaction_without_gaps_keeps_cursor() {
    let mut list = ProposalList::new(100, 1);
    list.unbuffered_push(3, 10).unwrap();
    assert_eq!(list.compact_unfinished_ranges(), 10);
    assert_eq!(list.begin_of_next_block(), 10);
    for i in 0..list.capacity() {
        assert_eq!(list.cell(i), if i < 10 { 3 } else { UNINITIALIZED });
    }
}

#[test]
fn sampler_skips_unused_cells() {
    let mut list = ProposalList::new(100, 1);
    let mut writer = Writer::new(&mut list).unwrap();
    writer.push(&mut list, 6, 1).unwrap();
    let sampler = Sampler::new(&list);
    assert_eq!(sampler.end(), BLOCK_SIZE);
    assert_eq!(sampler.sample(&list, 0), Some(6));
    assert_eq!(sampler.sample(&list, 1), None);
    assert_eq!(sampler.sample_with_explicit_begin(&list, 1, 5), None);
    assert_eq!(sampler.sample_with_explicit_begin(&list, 0, 0), Some(6));
}

#[test]
fn unreleased_block_is_not_compactable() {
    let mut list = ProposalList::new(1000, 2);
    let mut a = Writer::new(&mut list).unwrap();
    let mut b = Writer::new(&mut list).unwrap();
    a.push(&mut list, 1, 2).unwrap();
    b.push(&mut list, 2, 3).unwrap();
    assert!(!list.check_unfinished_ranges());
    a.free_unfinished_range(&mut list);
    assert!(!list.check_unfinished_ranges());
    b.free_unfinished_range(&mut list);
    assert!(list.check_unfinished_ranges());
    let end = list.compact_unfinished_ranges();
    assert_eq!(end, 5);
    assert_compact(&list, end);
}
