use rasterizer::shading::constant_span;
use rasterizer::util::{edge_interpolate, interpolate, left_right};

fn slope(i0: i64, d0: f64, i1: i64, d1: f64) -> f64 {
    if i0 == i1 {
        0.0
    } else {
        (d1 - d0) / (i1 - i0) as f64
    }
}

fn line(i0: i64, d0: f64, i1: i64, d1: f64) -> Vec<(i64, f64)> {
    let a = slope(i0, d0, i1, d1);
    interpolate(i0, d0, i1, d1, move |d| d + a)
}

#[test]
fn interpolate_one_row_is_the_first_value() {
    assert_eq!(line(3, 2.5, 3, 9.0), vec![(3, 2.5)]);
    assert_eq!(interpolate(-7, 'a', -7, 'b', |_| 'z'), vec![(-7, 'a')]);
}

#[test]
fn interpolate_steps_by_the_slope() {
    assert_eq!(
        line(0, 0.0, 4, 2.0),
        vec![(0, 0.0), (1, 0.5), (2, 1.0), (3, 1.5), (4, 2.0)]
    );
    assert_eq!(line(-2, 3.0, 1, 0.0), vec![(-2, 3.0), (-1, 2.0), (0, 1.0), (1, 0.0)]);
}

#[test]
fn interpolate_starts_at_the_first_value_and_ends_at_the_last() {
    // ten steps of a tenth add up to 0.9999999999999999: the last sample is the value handed in
    let table = line(0, 0.0, 10, 1.0);
    assert_eq!(table.len(), 11);
    assert_eq!(table[0], (0, 0.0));
    assert_eq!(table[10], (10, 1.0));
    assert_eq!(table[9].1 + 0.1, 0.9999999999999999);
    for k in 1..10 {
        assert_eq!(table[k].0, k as i64);
        assert_eq!(table[k].1, table[k - 1].1 + 0.1);
        assert!((table[k].1 - k as f64 / 10.0).abs() < 1e-12);
    }
}

#[test]
fn interpolate_ends_are_the_values_handed_in_bit_for_bit() {
    for &(i0, d0, i1, d1) in
        &[(0, 0.1, 3, 0.7), (-5, 1.0e-300, 7, 3.3e200), (2, -0.0, 3, 0.0), (0, 1.0 / 3.0, 49, 2.0 / 3.0)]
    {
        let table = line(i0, d0, i1, d1);
        assert_eq!(table.len() as i64, i1 - i0 + 1);
        assert_eq!(table[0].0, i0);
        assert_eq!(table[0].1.to_bits(), d0.to_bits());
        assert_eq!(table[table.len() - 1].0, i1);
        assert_eq!(table[table.len() - 1].1.to_bits(), d1.to_bits());
    }
}

#[test]
fn interpolate_with_whole_steps_ends_at_the_last_value() {
    let table = interpolate(2, 10i64, 6, 22, |d| d + 3);
    assert_eq!(table, vec![(2, 10), (3, 13), (4, 16), (5, 19), (6, 22)]);
}

#[test]
fn interpolate_takes_the_last_value_as_it_is() {
    let table = interpolate(2, 10i64, 5, -1, |d| d + 3);
    assert_eq!(table, vec![(2, 10), (3, 13), (4, 16), (5, -1)]);
    assert_eq!(interpolate(2, 10i64, 3, -1, |d| d + 3), vec![(2, 10), (3, -1)]);
}

#[test]
fn interpolate_over_crossed_bounds_is_empty() {
    assert_eq!(line(4, 1.0, 3, 2.0), vec![]);
    assert_eq!(line(i64::MAX, 1.0, i64::MIN + 2, 2.0), vec![]);
}

#[test]
fn interpolate_up_to_the_largest_row() {
    let table = interpolate(i64::MAX - 2, 0u8, i64::MAX, 2, |d| d + 1);
    assert_eq!(table, vec![(i64::MAX - 2, 0), (i64::MAX - 1, 1), (i64::MAX, 2)]);
}

#[test]
fn interpolate_advances_once_for_each_sample_between_the_ends() {
    let calls = std::cell::Cell::new(0);
    let table = interpolate(0, 0u32, 3, 3, |d| {
        calls.set(calls.get() + 1);
        d + 1
    });
    assert_eq!(table.len(), 4);
    assert_eq!(calls.get(), 2);
}

fn edges(y0: i64, v0: f64, y1: i64, v1: f64, y2: i64, v2: f64) -> [Vec<(i64, f64)>; 2] {
    let a01 = slope(y0, v0, y1, v1);
    let a02 = slope(y0, v0, y2, v2);
    let a12 = slope(y1, v1, y2, v2);
    edge_interpolate(y0, v0, y1, v1, y2, v2, move |d| d + a01, move |d| d + a02, move |d| d + a12)
}

#[test]
fn edge_tables_have_one_sample_for_each_row() {
    let [long, short] = edges(0, 0.0, 2, 4.0, 4, 0.0);
    assert_eq!(long, vec![(0, 0.0), (1, 0.0), (2, 0.0), (3, 0.0), (4, 0.0)]);
    assert_eq!(short, vec![(0, 0.0), (1, 2.0), (2, 4.0), (3, 2.0), (4, 0.0)]);
}

#[test]
fn edge_tables_take_the_middle_row_from_the_lower_side() {
    // the upper side would reach the middle row with a rounding error
    let [long, short] = edges(0, 0.0, 10, 1.0, 11, 3.0);
    assert_eq!(long.len(), 12);
    assert_eq!(short.len(), 12);
    assert_eq!(short[10], (10, 1.0));
    assert_eq!(short[11], (11, 3.0));
    assert_eq!(short[0], (0, 0.0));
    assert_eq!(long[0], (0, 0.0));
    assert_eq!(long[11], (11, 3.0));
    for k in 0..12 {
        assert_eq!(long[k].0, k as i64);
        assert_eq!(short[k].0, k as i64);
    }
}

#[test]
fn edge_tables_of_a_flat_top() {
    let [long, short] = edges(5, 1.0, 5, 7.0, 7, 3.0);
    assert_eq!(long, vec![(5, 1.0), (6, 2.0), (7, 3.0)]);
    assert_eq!(short, vec![(5, 7.0), (6, 5.0), (7, 3.0)]);
}

#[test]
fn edge_tables_of_a_flat_bottom() {
    let [long, short] = edges(5, 1.0, 7, 7.0, 7, 3.0);
    assert_eq!(long, vec![(5, 1.0), (6, 2.0), (7, 3.0)]);
    assert_eq!(short, vec![(5, 1.0), (6, 4.0), (7, 7.0)]);
}

#[test]
fn edge_tables_of_a_single_row() {
    let [long, short] = edges(5, 1.0, 5, 7.0, 5, 3.0);
    assert_eq!(long, vec![(5, 1.0)]);
    assert_eq!(short, vec![(5, 7.0)]);
}

#[test]
fn left_and_right_are_decided_on_the_middle_row() {
    let tables = edges(0, 0.0, 2, 4.0, 4, 0.0);
    assert_eq!(left_right(&tables, |a, b| a < b), (0, 1));
    let tables = edges(0, 0.0, 2, -4.0, 4, 0.0);
    assert_eq!(left_right(&tables, |a, b| a < b), (1, 0));
    // equal in the middle: the second table is the left one
    let tables = edges(0, 0.0, 0, 0.0, 0, 0.0);
    assert_eq!(left_right(&tables, |a, b| a < b), (1, 0));
}

#[test]
fn left_and_right_use_the_middle_of_the_first_table() {
    let tables = [
        vec![(0, 9.0), (1, 9.0), (2, 1.0), (3, 9.0)],
        vec![(0, 0.0), (1, 0.0), (2, 5.0), (3, 0.0)],
    ];
    assert_eq!(left_right(&tables, |a, b| a < b), (0, 1));
}

#[test]
fn constant_span_repeats_the_value_over_the_span() {
    assert_eq!(constant_span(0.5, -2, 1), vec![0.5; 4]);
    assert_eq!(constant_span('c', 3, 3), vec!['c']);
    assert_eq!(constant_span(1u8, 4, 3), Vec::<u8>::new());
    assert_eq!(constant_span(1u8, i64::MAX, i64::MIN), Vec::<u8>::new());
    assert_eq!(constant_span(1u8, i64::MAX - 1, i64::MAX), vec![1, 1]);
}
