use rust_nlpa::edge_writer::{
    degree_distribution, report_distribution, DegreeCount, EdgeCounter, EdgeWriter,
};

#[test]
fn edge_counter_counts_edges() {
    let mut counter = EdgeCounter::default();
    assert_eq!(counter.number_of_edges(), 0);
    counter.add_edge(0, 1);
    counter.add_edge(5, 5);
    assert_eq!(counter.number_of_edges(), 2);
}

#[test]
fn degree_count_tracks_both_ends() {
    let mut dc = DegreeCount::new(4);
    assert_eq!(dc.degrees(), &[0, 0, 0, 0]);
    dc.add_edge(0, 1);
    dc.add_edge(0, 2);
    dc.add_edge(3, 3);
    assert_eq!(dc.number_of_edges(), 3);
    assert_eq!(dc.degrees(), &[2, 1, 1, 2]);
}

#[test]
fn degree_distribution_counts_and_sorts() {
    let distr = degree_distribution(&[3, 1, 1, 5, 3, 1]);
    assert_eq!(distr, vec![(1, 3), (3, 2), (5, 1)]);
}

#[test]
fn degree_distribution_of_nothing_is_empty() {
    assert_eq!(degree_distribution(&[]), Vec::<(usize, usize)>::new());
}

#[test]
fn degree_count_distribution() {
    let mut dc = DegreeCount::new(3);
    dc.add_edge(0, 1);
    dc.add_edge(0, 2);
    assert_eq!(dc.degree_distribution(), vec![(1, 2), (2, 1)]);
}

#[test]
fn report_lines_are_right_aligned() {
    let text = report_distribution(&[(1, 20), (12345678901, 3)]);
    assert_eq!(
        text,
        "#DD          1,         20\n#DD 12345678901,          3\n"
    );
}

#[test]
fn report_matches_std_formatting() {
    let distr = vec![(0, 0), (9, 10), (100, 999999), (usize::MAX, 1)];
    let expected: String = distr
        .iter()
        .map(|&(d, n)| format!("#DD {:>10}, {:>10}\n", d, n))
        .collect();
    assert_eq!(report_distribution(&distr), expected);
}

#[test]
fn degree_count_report() {
    let mut dc = DegreeCount::new(2);
    dc.add_edge(0, 1);
    assert_eq!(dc.report_distribution(), "#DD          1,          2\n");
}
