use flatten::decompose::{Decomposer, Fit};
use flatten::plan::{sample_plan, Sample};

#[test]
fn no_segments_no_points() {
    assert_eq!(sample_plan(&vec![]), vec![]);
}

#[test]
fn single_chord_has_both_ends() {
    assert_eq!(
        sample_plan(&vec![1]),
        vec![Sample { segment: 0, index: 0, count: 1 }, Sample { segment: 0, index: 1, count: 1 }]
    );
}

#[test]
fn shared_endpoints_appear_once() {
    assert_eq!(
        sample_plan(&vec![2, 3, 1]),
        vec![
            Sample { segment: 0, index: 0, count: 2 },
            Sample { segment: 0, index: 1, count: 2 },
            Sample { segment: 0, index: 2, count: 2 },
            Sample { segment: 1, index: 1, count: 3 },
            Sample { segment: 1, index: 2, count: 3 },
            Sample { segment: 1, index: 3, count: 3 },
            Sample { segment: 2, index: 1, count: 1 },
        ]
    );
}

#[test]
fn point_count_is_chords_plus_one() {
    let counts = vec![4, 1, 7, 2, 2, 9];
    let plan = sample_plan(&counts);
    assert_eq!(plan.len(), 26);
    assert_eq!(plan[0], Sample { segment: 0, index: 0, count: 4 });
    assert_eq!(plan[25], Sample { segment: 5, index: 9, count: 9 });
    for s in &plan[1..] {
        assert!(s.index >= 1 && s.index <= s.count);
    }
}

#[test]
fn straight_line_flattens_to_two_points() {
    // Control points evenly spaced on the segment from (0,0) to (100,0): the
    // first fit is within any tolerance, and one chord suffices.
    let mut d = Decomposer::new(20);
    d.advance(Fit::Within);
    assert!(d.is_finished());
    let counts: Vec<u32> = d.spans().iter().map(|_| 1).collect();
    let plan = sample_plan(&counts);
    let full = (1u64 << 20) as f64;
    let points: Vec<(f64, f64)> = plan
        .iter()
        .map(|s| {
            let span = d.spans()[s.segment];
            let (t0, t1) = (span.lo as f64 / full, span.hi as f64 / full);
            let t = t0 + (t1 - t0) * (s.index as f64 / s.count as f64);
            (100.0 * t, 0.0)
        })
        .collect();
    assert_eq!(points, vec![(0.0, 0.0), (100.0, 0.0)]);
}
