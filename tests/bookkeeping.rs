use rust_nlpa::epoch::{degree_increases, discard_beyond_epoch, EpochCursor};
use rust_nlpa::node_table::{raise_replicas, NodeTable};
use rust_nlpa::reports::Reporter;
use rust_nlpa::run_length::EpochBounds;

#[test]
fn node_table_starts_without_replicas() {
    let table = NodeTable::new(3);
    assert_eq!(table.len(), 3);
    assert_eq!(table.degrees(), vec![0, 0, 0]);
    assert_eq!(table.count(2), 0);
    assert_eq!(table.max_degree(), 0);
}

#[test]
fn node_table_degrees_grow() {
    let mut table = NodeTable::new(3);
    assert_eq!(table.set_degree(0, 1), 0);
    assert_eq!(table.fetch_add_degree(0, 4), 1);
    assert_eq!(table.fetch_add_degree(2, 2), 0);
    assert_eq!(table.degrees(), vec![5, 0, 2]);
    assert_eq!(table.max_degree(), 5);
}

#[test]
fn replica_counts_only_rise() {
    let mut table = NodeTable::new(2);
    assert_eq!(table.try_raise_count(1, 1), Some(0));
    assert_eq!(table.try_raise_count(1, 4), Some(1));
    assert_eq!(table.try_raise_count(1, 3), None);
    assert_eq!(table.try_raise_count(1, 4), None);
    assert_eq!(table.count(1), 4);
}

#[test]
fn samples_past_the_epoch_are_dropped() {
    let mut new_nodes = vec![10, 12, 14, 16];
    let mut hosts = vec![1, 2, 3, 4, 5, 6, 7, 8];
    discard_beyond_epoch(&mut new_nodes, &mut hosts, 15, 2);
    assert_eq!(new_nodes, vec![10, 12]);
    assert_eq!(hosts, vec![1, 2, 3, 4]);
}

#[test]
fn degree_increases_of_an_epoch() {
    let mut r = degree_increases(&[20, 21], &[3, 5, 3, 3], 2);
    assert_eq!(&r[..2], &[(20, 2), (21, 2)]);
    let mut hosts = r.split_off(2);
    hosts.sort();
    assert_eq!(hosts, vec![(3, 3), (5, 1)]);
    let total: usize = [(20, 2), (21, 2)].iter().chain(hosts.iter()).map(|p| p.1).sum();
    assert_eq!(total, 2 * 2 * 2);
}

#[test]
fn reporter_waits_for_the_interval() {
    let mut reporter = Reporter::new(1000);
    reporter.update_epoch(1, 10, 110);
    assert!(reporter.report_progress_sometimes(150).is_none());
    let report = reporter.report_progress_sometimes(250).unwrap();
    assert_eq!(report.epoch_id, 1);
    assert_eq!(report.nodes_since_last_report, 110);
    assert_eq!(report.epochs_since_last_report, 1);
    assert_eq!(report.epoch_len(), 100);
    reporter.update_epoch(3, 110, 300);
    let forced = reporter.report_progress_forced(260);
    assert_eq!(forced.elapsed_ms, 260);
    assert_eq!(forced.nodes_since_last_report, 190);
    assert_eq!(forced.epochs_since_last_report, 2);
    assert_eq!(forced.num_total_nodes, 1000);
}

#[test]
fn epoch_cutoff_moves_only_past_lower() {
    let mut bounds = EpochBounds::new();
    bounds.setup_epoch(10, 100, 4);
    assert_eq!(bounds.upper(), 100);
    assert_eq!(bounds.real_lower(), 10);
    bounds.setup_epoch(20, 200, 5);
    // the cutoff still lies beyond the new start and stays
    assert_eq!(bounds.upper(), 100);
    assert_eq!(bounds.max_degree(), 5);
}

#[test]
fn dependent_node_becomes_cutoff() {
    let mut bounds = EpochBounds::new();
    bounds.setup_epoch(10, 100, 3);
    assert!(bounds.continue_with_node(15, true));
    assert_eq!(bounds.upper(), 100);
    assert!(!bounds.continue_with_node(40, false));
    assert_eq!(bounds.upper(), 40);
    assert!(!bounds.continue_with_node(50, true));
    assert!(!bounds.continue_with_node(40, true));
    assert!(bounds.continue_with_node(39, true));
    bounds.cut_at(60);
    assert_eq!(bounds.upper(), 40);
}

#[test]
fn epoch_counts_from_its_first_node() {
    let mut bounds = EpochBounds::new();
    bounds.setup_epoch(10, 100, 7);
    assert_eq!(bounds.nodes_in_epoch(25), 15);
    assert_eq!(bounds.max_degree_bound(25), 22);
    assert_eq!(bounds.claim_block(100), 10);
    assert_eq!(bounds.lower(), 110);
}

#[test]
fn epochs_follow_each_other() {
    let mut cursor = EpochCursor::new(10);
    assert_eq!((cursor.epoch_id(), cursor.start(), cursor.end()), (0, 0, 10));
    cursor.begin_epoch(40);
    assert_eq!((cursor.epoch_id(), cursor.start(), cursor.end()), (1, 10, 40));
    assert_eq!(cursor.seam_node(0), None);
    assert_eq!(cursor.phase1_nodes(2), (12, 39));
    assert!(!cursor.finish_epoch(30, 100));
    assert_eq!(cursor.end(), 30);
    cursor.begin_epoch(100);
    assert_eq!((cursor.epoch_id(), cursor.start(), cursor.end()), (2, 30, 100));
    assert_eq!(cursor.seam_node(0), Some(29));
    assert_eq!(cursor.seam_node(1), None);
    assert!(cursor.finish_epoch(100, 100));
}

#[test]
fn replicas_are_appended_up_to_target() {
    let mut list = vec![0, 1];
    assert_eq!(raise_replicas(&mut list, 4, 1, 3), 3);
    assert_eq!(list, vec![0, 1, 4, 4]);
    assert_eq!(raise_replicas(&mut list, 4, 3, 2), 3);
    assert_eq!(list, vec![0, 1, 4, 4]);
}

#[test]
fn commit_applies_increases_in_order() {
    let mut table = NodeTable::new(4);
    table.set_degree(0, 1);
    table.set_degree(1, 1);
    assert_eq!(table.degree_sum(), 2);
    let increases = degree_increases(&[2, 3], &[0, 1, 0, 0], 2);
    let old = table.commit_degree_increases(&increases);
    assert_eq!(old.len(), increases.len());
    assert_eq!(table.degrees(), vec![4, 2, 2, 2]);
    // an epoch of two new nodes with two hosts each adds 2 * 2 * 2
    assert_eq!(table.degree_sum(), 2 + 8);
    assert_eq!(table.max_degree(), 4);
}

#[test]
fn commit_reports_degree_before_each_increase() {
    let mut table = NodeTable::new(2);
    let old = table.commit_degree_increases(&[(1, 2), (0, 1), (1, 3)]);
    assert_eq!(old, vec![0, 0, 2]);
    assert_eq!(table.degrees(), vec![1, 5]);
}
