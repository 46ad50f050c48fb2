use flatten::decompose::{decompose, Decomposer, Fit, Span, Step, DEFAULT_MAX_DEPTH, DEPTH_LIMIT};

fn assert_tiles(spans: &Vec<Span>, full: u64, max_depth: u32) {
    assert!(!spans.is_empty());
    assert_eq!(spans[0].lo, 0);
    assert_eq!(spans[spans.len() - 1].hi, full);
    for i in 0..spans.len() {
        assert!(spans[i].lo < spans[i].hi);
        assert!(spans[i].depth <= max_depth);
        assert_eq!(spans[i].hi - spans[i].lo, full >> spans[i].depth);
        if i + 1 < spans.len() {
            assert_eq!(spans[i].hi, spans[i + 1].lo);
        }
    }
}

#[test]
fn new_has_whole_range_pending() {
    let d = Decomposer::new(DEFAULT_MAX_DEPTH);
    assert_eq!(d.depth_cap(), 20);
    assert!(!d.is_finished());
    assert_eq!(d.pending_len(), 1);
    assert_eq!(d.current(), Some(Span { lo: 0, hi: 1 << 20, depth: 0 }));
    assert!(d.spans().is_empty());
}

#[test]
fn deepest_configuration_spans_two_to_the_fifty_two() {
    let d = Decomposer::new(DEPTH_LIMIT);
    assert_eq!(d.current(), Some(Span { lo: 0, hi: 1u64 << 52, depth: 0 }));
}

#[test]
fn good_fit_is_accepted_whole() {
    let mut d = Decomposer::new(20);
    let whole = Span { lo: 0, hi: 1 << 20, depth: 0 };
    assert_eq!(d.advance(Fit::Within), Step::Emitted(whole));
    assert!(d.is_finished());
    assert_eq!(d.current(), None);
    assert_eq!(d.spans(), &vec![whole]);
}

#[test]
fn degenerate_chord_is_accepted_whole() {
    let mut d = Decomposer::new(20);
    let whole = Span { lo: 0, hi: 1 << 20, depth: 0 };
    assert_eq!(d.advance(Fit::Degenerate), Step::Emitted(whole));
    assert!(d.is_finished());
}

#[test]
fn bad_fit_is_bisected_left_half_first() {
    let mut d = Decomposer::new(3);
    assert_eq!(d.advance(Fit::Exceeds), Step::Bisected);
    assert_eq!(d.pending_len(), 2);
    assert_eq!(d.current(), Some(Span { lo: 0, hi: 4, depth: 1 }));
    assert_eq!(d.advance(Fit::Within), Step::Emitted(Span { lo: 0, hi: 4, depth: 1 }));
    assert_eq!(d.current(), Some(Span { lo: 4, hi: 8, depth: 1 }));
}

#[test]
fn mixed_verdicts_give_uneven_tiling() {
    let mut d = Decomposer::new(3);
    assert_eq!(d.advance(Fit::Exceeds), Step::Bisected);
    assert_eq!(d.advance(Fit::Within), Step::Emitted(Span { lo: 0, hi: 4, depth: 1 }));
    assert_eq!(d.advance(Fit::Exceeds), Step::Bisected);
    assert_eq!(d.advance(Fit::Degenerate), Step::Emitted(Span { lo: 4, hi: 6, depth: 2 }));
    assert_eq!(d.advance(Fit::Within), Step::Emitted(Span { lo: 6, hi: 8, depth: 2 }));
    assert!(d.is_finished());
    assert_eq!(
        d.spans(),
        &vec![
            Span { lo: 0, hi: 4, depth: 1 },
            Span { lo: 4, hi: 6, depth: 2 },
            Span { lo: 6, hi: 8, depth: 2 },
        ]
    );
    assert_tiles(d.spans(), 8, 3);
}

#[test]
fn depth_cap_forces_acceptance() {
    let mut d = Decomposer::new(3);
    let mut steps = 0;
    while !d.is_finished() {
        d.advance(Fit::Exceeds);
        steps += 1;
        assert!(d.pending_len() <= 4);
    }
    assert_eq!(steps, 15);
    assert_eq!(d.spans().len(), 8);
    for (i, s) in d.spans().iter().enumerate() {
        assert_eq!(*s, Span { lo: i as u64, hi: i as u64 + 1, depth: 3 });
    }
    assert_tiles(d.spans(), 8, 3);
}

#[test]
fn zero_depth_never_bisects() {
    let mut d = Decomposer::new(0);
    assert_eq!(d.current(), Some(Span { lo: 0, hi: 1, depth: 0 }));
    assert_eq!(d.advance(Fit::Exceeds), Step::Emitted(Span { lo: 0, hi: 1, depth: 0 }));
    assert!(d.is_finished());
}

#[test]
fn finished_decomposer_stays_put() {
    let mut d = Decomposer::new(2);
    d.advance(Fit::Within);
    let before = d.spans().clone();
    assert_eq!(d.advance(Fit::Exceeds), Step::Finished);
    assert_eq!(d.advance(Fit::Within), Step::Finished);
    assert_eq!(d.spans(), &before);
    assert_eq!(d.pending_len(), 0);
}

#[test]
fn every_run_terminates_and_tiles() {
    // Verdicts drawn from a fixed pseudo-random sequence.
    let mut state: u64 = 0x9E37_79B9_7F4A_7C15;
    for round in 0..50u32 {
        let max_depth = round % 11;
        let mut d = Decomposer::new(max_depth);
        let bound = 2 * (1u64 << max_depth) - 1;
        let mut steps = 0u64;
        while !d.is_finished() {
            state = state.wrapping_mul(6364136223846793005).wrapping_add(1442695040888963407);
            let fit = match (state >> 33) % 3 {
                0 => Fit::Within,
                1 => Fit::Exceeds,
                _ => Fit::Degenerate,
            };
            d.advance(fit);
            steps += 1;
            assert!(steps <= bound);
            assert!(d.pending_len() <= max_depth as usize + 1);
        }
        assert_tiles(d.spans(), 1u64 << max_depth, max_depth);
    }
}

#[test]
fn same_verdicts_give_same_spans() {
    let script = [Fit::Exceeds, Fit::Exceeds, Fit::Within, Fit::Within, Fit::Exceeds, Fit::Within, Fit::Within];
    let mut a = Decomposer::new(20);
    let mut b = Decomposer::new(20);
    for fit in script {
        assert_eq!(a.advance(fit), b.advance(fit));
    }
    assert!(a.is_finished());
    assert_eq!(a.spans(), b.spans());
    assert_eq!(a.spans().len(), 4);
}

#[test]
fn pull_hands_out_spans_left_to_right() {
    let judge = |s: Span| if s.depth < 2 { Fit::Exceeds } else { Fit::Within };
    let mut d = Decomposer::new(3);
    let mut got = vec![];
    while let Some(s) = d.pull(&judge) {
        assert_eq!(d.spans().last(), Some(&s));
        got.push(s);
    }
    assert_eq!(
        got,
        vec![
            Span { lo: 0, hi: 2, depth: 2 },
            Span { lo: 2, hi: 4, depth: 2 },
            Span { lo: 4, hi: 6, depth: 2 },
            Span { lo: 6, hi: 8, depth: 2 },
        ]
    );
    assert_eq!(got, decompose(3, &judge));
    assert!(d.is_finished());
    assert_eq!(d.pull(&judge), None);
    assert_eq!(d.spans(), &got);
}

#[test]
fn pull_resumes_after_single_steps() {
    let mut d = Decomposer::new(2);
    assert_eq!(d.advance(Fit::Exceeds), Step::Bisected);
    assert_eq!(d.pull(|_| Fit::Exceeds), Some(Span { lo: 0, hi: 1, depth: 2 }));
    assert_eq!(d.pull(|_| Fit::Within), Some(Span { lo: 1, hi: 2, depth: 2 }));
    assert_eq!(d.pull(|_| Fit::Degenerate), Some(Span { lo: 2, hi: 4, depth: 1 }));
    assert_eq!(d.pull(|_| Fit::Exceeds), None);
}
