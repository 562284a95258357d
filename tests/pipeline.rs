use brc::decode::parse_temp;
use brc::driver::{aggregate, RunError};
use brc::global::SortedTable;
use brc::order::compare_names;
use brc::plan::{get_chunks, PlanError};
use brc::scan::{process_chunk, FormatError};
use brc::stats::CityStats;
use brc::table::LocalTable;
use std::cmp::Ordering;

const SAMPLE: &[u8] = b"A;1.0\nB;-2.5\nA;3.0\n";

fn rows(t: &SortedTable) -> Vec<(Vec<u8>, i16, i16, i128, u64)> {
    let mut out = Vec::new();
    for i in 0..t.len() {
        let s = t.stats(i);
        out.push((t.name(i).clone(), s.min, s.max, s.sum, s.count));
    }
    out
}

#[test]
fn decodes_listed_values() {
    assert_eq!(parse_temp(b"0.0"), Some(0));
    assert_eq!(parse_temp(b"-3.7"), Some(-37));
    assert_eq!(parse_temp(b"99.9"), Some(999));
    assert_eq!(parse_temp(b"-9.8"), Some(-98));
    assert_eq!(parse_temp(b"-99.9"), Some(-999));
    assert_eq!(parse_temp(b"12.3"), Some(123));
}

#[test]
fn rejects_other_shapes() {
    assert_eq!(parse_temp(b"abc"), None);
    assert_eq!(parse_temp(b""), None);
    assert_eq!(parse_temp(b"-"), None);
    assert_eq!(parse_temp(b"1.23"), None);
    assert_eq!(parse_temp(b"123.4"), None);
    assert_eq!(parse_temp(b"1,0"), None);
    assert_eq!(parse_temp(b"--1.0"), None);
    assert_eq!(parse_temp(b"1.0\n"), None);
}

#[test]
fn one_worker_takes_everything() {
    assert_eq!(get_chunks(SAMPLE, 1), Ok(vec![(0, 19)]));
}

#[test]
fn boundary_inside_a_line_snaps_back() {
    // the tentative end of the first slice is offset 9, inside "B;-2.5"
    assert_eq!(get_chunks(SAMPLE, 2), Ok(vec![(0, 6), (6, 19)]));
}

#[test]
fn boundary_on_a_terminator_stays_in_earlier_range() {
    assert_eq!(get_chunks(b"A;1.0\nB;2.0\n", 2), Ok(vec![(0, 6), (6, 12)]));
}

#[test]
fn ranges_partition_the_buffer() {
    let data: Vec<u8> = b"Hamburg;12.0\nBulawayo;8.9\nPalembang;38.8\nSt. John's;15.2\nCracow;12.6\n".to_vec();
    // offsets of the terminators: 12, 25, 40, 56, 68
    assert_eq!(get_chunks(&data, 3), Ok(vec![(0, 13), (13, 41), (41, 69)]));
    assert_eq!(get_chunks(&data, 5), Err(PlanError::NoTerminator { slice: 2 }));
    for n in 1..5 {
        let r = get_chunks(&data, n).unwrap();
        assert_eq!(r.len(), n);
        assert_eq!(r[0].0, 0);
        assert_eq!(r[n - 1].1, data.len());
        for k in 0..n {
            assert!(r[k].0 < r[k].1);
            assert_eq!(data[r[k].1 - 1], b'\n');
            if k + 1 < n {
                assert_eq!(r[k].1, r[k + 1].0);
            }
        }
    }
}

#[test]
fn too_many_workers_is_a_planning_error() {
    assert_eq!(get_chunks(b"A;1.0\n", 7), Err(PlanError::NoTerminator { slice: 0 }));
    assert_eq!(get_chunks(b"", 1), Err(PlanError::NoTerminator { slice: 0 }));
}

#[test]
fn missing_final_terminator_is_a_planning_error() {
    assert_eq!(get_chunks(b"A;1.0\nB;2.0", 1), Err(PlanError::UnterminatedTail));
}

#[test]
fn single_worker_scenario() {
    let t = aggregate(SAMPLE, 1).unwrap();
    assert_eq!(
        rows(&t),
        vec![(b"A".to_vec(), 10, 30, 40, 2), (b"B".to_vec(), -25, -25, -25, 1)]
    );
    let a = t.stats(0);
    assert_eq!(a.sum / a.count as i128, 20);
}

#[test]
fn two_worker_scenario_matches_single_worker() {
    let one = aggregate(SAMPLE, 1).unwrap();
    let two = aggregate(SAMPLE, 2).unwrap();
    assert_eq!(rows(&one), rows(&two));
}

#[test]
fn chunked_results_agree_for_every_worker_count() {
    let data: Vec<u8> =
        b"b;1.0\na;-3.5\nab;2.2\nb;-0.1\na;4.0\nc;99.9\nab;-99.9\nb;5.5\na;0.0\nc;-1.0\n".to_vec();
    let one = rows(&aggregate(&data, 1).unwrap());
    for n in 2..8 {
        assert_eq!(rows(&aggregate(&data, n).unwrap()), one);
    }
    let names: Vec<Vec<u8>> = one.iter().map(|r| r.0.clone()).collect();
    assert_eq!(names, vec![b"a".to_vec(), b"ab".to_vec(), b"b".to_vec(), b"c".to_vec()]);
}

#[test]
fn malformed_temperature_is_fatal() {
    assert_eq!(
        aggregate(b"A;abc\n", 1).err(),
        Some(RunError::Format { chunk: 0, error: FormatError::BadTemperature { start: 2, end: 5 } })
    );
    assert_eq!(
        aggregate(b"B;1.0\nA;abc\n", 2).err(),
        Some(RunError::Format { chunk: 1, error: FormatError::BadTemperature { start: 2, end: 5 } })
    );
}

#[test]
fn planning_error_is_reported() {
    assert_eq!(aggregate(b"A;1.0\nB;2.0", 1).err(), Some(RunError::Plan(PlanError::UnterminatedTail)));
    assert_eq!(aggregate(b"A;1.0", 1).err(), Some(RunError::Plan(PlanError::NoTerminator { slice: 0 })));
}

#[test]
fn record_without_terminator_is_fatal() {
    assert_eq!(process_chunk(b"A;1.0").err(), Some(FormatError::Unterminated { start: 0 }));
    assert_eq!(process_chunk(b"X;1.0\nA;1").err(), Some(FormatError::Unterminated { start: 6 }));
}

#[test]
fn text_without_separator_ends_the_chunk() {
    let t = process_chunk(b"A;1.0\ntrailing").unwrap();
    assert_eq!(t.len(), 1);
    assert_eq!(process_chunk(b"").unwrap().len(), 0);
}

#[test]
fn local_table_tracks_true_extrema() {
    let t = process_chunk(b"A;5.0\nA;1.0\nA;9.0\nB;0.5\nA;-2.0\n").unwrap();
    assert_eq!(t.len(), 2);
    assert_eq!(t.name(0), &b"A".to_vec());
    let a = t.stats(0);
    assert_eq!((a.min, a.max, a.sum, a.count), (-20, 90, 130, 4));
    assert_eq!(t.name(1), &b"B".to_vec());
}

#[test]
fn names_sharing_a_prefix_stay_apart() {
    let t = process_chunk(b"Ab;1.0\nA;2.0\nAb;3.0\n").unwrap();
    assert_eq!(t.len(), 2);
    assert_eq!(t.stats(0).count, 2);
    assert_eq!(t.stats(1).count, 1);
}

#[test]
fn local_table_add() {
    let mut t = LocalTable::new();
    t.add(b"X", 10);
    t.add(b"Y", -5);
    t.add(b"X", 30);
    assert_eq!(t.len(), 2);
    let x = t.stats(0);
    assert_eq!((x.min, x.max, x.sum, x.count), (10, 30, 40, 2));
}

#[test]
fn merge_combines_rather_than_replaces() {
    let mut g = SortedTable::new();
    g.merge_local(&process_chunk(b"B;1.0\nA;2.0\n").unwrap());
    g.merge_local(&process_chunk(b"A;-1.0\nC;4.0\n").unwrap());
    assert_eq!(
        rows(&g),
        vec![
            (b"A".to_vec(), -10, 20, 10, 2),
            (b"B".to_vec(), 10, 10, 10, 1),
            (b"C".to_vec(), 40, 40, 40, 1)
        ]
    );
    assert_eq!(g.max_count(), 2);
    assert_eq!(SortedTable::new().max_count(), 0);
}

#[test]
fn merge_order_does_not_matter() {
    let first = process_chunk(b"A;1.0\nB;2.0\n").unwrap();
    let second = process_chunk(b"B;-3.0\nC;0.0\n").unwrap();
    let third = process_chunk(b"A;7.5\nC;-0.5\n").unwrap();
    let mut x = SortedTable::new();
    x.merge_local(&first);
    x.merge_local(&second);
    x.merge_local(&third);
    let mut y = SortedTable::new();
    y.merge_local(&third);
    y.merge_local(&first);
    y.merge_local(&second);
    assert_eq!(rows(&x), rows(&y));
}

#[test]
fn absorb_adds_in_order() {
    let mut g = SortedTable::new();
    g.absorb(b"m", CityStats::from_temp(5));
    g.absorb(b"a", CityStats::from_temp(-5));
    g.absorb(b"z", CityStats::from_temp(0));
    g.absorb(b"m", CityStats::from_temp(7));
    let names: Vec<Vec<u8>> = rows(&g).into_iter().map(|r| r.0).collect();
    assert_eq!(names, vec![b"a".to_vec(), b"m".to_vec(), b"z".to_vec()]);
    assert_eq!(g.stats(1).max, 7);
    assert_eq!(g.stats(1).count, 2);
}

#[test]
fn stats_from_temp_add_and_merge() {
    let mut s = CityStats::from_temp(-12);
    assert_eq!((s.min, s.max, s.sum, s.count), (-12, -12, -12, 1));
    s.add_temp(30);
    s.add_temp(-40);
    assert_eq!((s.min, s.max, s.sum, s.count), (-40, 30, -22, 3));
    let mut o = CityStats::from_temp(99);
    o.add_temp(-99);
    s.merge(&o);
    assert_eq!((s.min, s.max, s.sum, s.count), (-99, 99, -22, 5));
}

#[test]
fn names_compare_bytewise() {
    assert_eq!(compare_names(b"a", b"b"), Ordering::Less);
    assert_eq!(compare_names(b"ab", b"a"), Ordering::Greater);
    assert_eq!(compare_names(b"", b"a"), Ordering::Less);
    assert_eq!(compare_names(b"abc", b"abc"), Ordering::Equal);
    assert_eq!(compare_names(b"Z", b"a"), Ordering::Less);
}
