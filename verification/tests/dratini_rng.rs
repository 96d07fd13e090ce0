use reader_core::crystal::dratini_rng::{
    random, Calibration, Div, Dvs, Filter, Gender, Model, Rng, Sample, Search, Target, Transform,
    Verification, verify,
};

fn rng() -> Rng {
    Rng {
        state: 0x9fe3,
        add: Div {
            index: 468,
            value: 0x78,
        },
        sub: Div {
            index: 16139,
            value: 0x78,
        },
    }
}
fn model() -> Model {
    Model {
        delay: 7,
        reads: [
            Transform { slope: 1, offset: 10 },
            Transform { slope: 1, offset: 10 },
            Transform { slope: 1, offset: 11 },
            Transform { slope: 1, offset: 11 },
        ],
    }
}
fn sample(n: u8) -> Sample {
    let mut start = rng();
    start.add.value = n;
    start.sub.value = n.wrapping_add(19);
    start.state = u16::from(n) * 257;
    let mut before = start;
    before.advance(model().delay);
    let reads = [
        before.add.value.wrapping_add(10),
        before.sub.value.wrapping_add(10),
        before.add.value.wrapping_add(11),
        before.sub.value.wrapping_add(11),
    ];
    Sample {
        start,
        delay: model().delay,
        before,
        reads,
        dvs: model().dvs(before),
    }
}

#[test]
fn shiny_all_65536_spreads() {
    let mut count = 0;
    for raw in 0..=u16::MAX {
        let dvs = Dvs((raw >> 8) as u8, raw as u8);
        let expected = raw & 0x0fff == 0x0aaa && (raw >> 12) & 2 != 0;
        assert_eq!(dvs.shiny(), expected);
        count += usize::from(dvs.shiny());
    }
    assert_eq!(count, 8);
}

#[test]
fn gender_threshold_and_attack_filters() {
    for atk in 0..16 {
        let dvs = Dvs((atk << 4) | 10, 0xaa);
        assert_eq!(dvs.gender(), if atk < 8 { Gender::Female } else { Gender::Male });
        for gender in [Gender::Any, Gender::Female, Gender::Male] {
            for wanted in 0..16 {
                let filter = Filter {
                    shiny: false,
                    gender,
                    attack: Some(wanted),
                };
                assert_eq!(
                    filter.matches(dvs),
                    wanted == atk && (gender == Gender::Any || gender == dvs.gender())
                );
            }
        }
    }
    assert!(Filter::default().matches(Dvs(0x2a, 0xaa)));
    assert!(!Filter::default().matches(Dvs(0x2a, 0xab)));
    assert!(Filter::preset(1).matches(Dvs(0xaa, 0xaa)));
    assert!(!Filter::preset(1).matches(Dvs(0x7a, 0xaa)));
    assert!(Filter::preset(2).matches(Dvs(0x7a, 0xaa)));
    assert!(!Filter::preset(2).matches(Dvs(0xaa, 0xaa)));
    assert!(Filter::preset(3).matches(Dvs(0xfa, 0xaa)));
    assert!(!Filter::preset(3).matches(Dvs(0xea, 0xaa)));
    assert!(!Filter {
        gender: Gender::Female,
        ..Filter::preset(3)
    }
    .matches(Dvs(0xfa, 0xaa)));
}

#[test]
fn random_carry_and_borrow() {
    assert_eq!(random(0xff00, 1, 0, false), (0x00ff, true));
    assert_eq!(random(0x00ff, 0, 255, true), (0x0100, false));
    assert_eq!(random(0xffff, 255, 255, true), (0xffff, true));
    assert_eq!(random(0x0000, 0, 1, false), (0x00ff, true));
}

#[test]
fn idle_reference_and_div_wrap() {
    let mut r = rng();
    // Published GameboyRng reference sequence, PokemonRNGGuides (GPL-3.0).
    for expected in [0x2958, 0xc5bb, 0x740b, 0x3549, 0x0874, 0xee8e, 0xe695, 0xf08b] {
        r.next();
        assert_eq!(r.state, expected);
    }
    let mut div = Div {
        index: 0x3fff,
        value: 250,
    };
    div.next();
    assert_eq!(div, Div { index: 0, value: 13 });
    for (index, expected) in [
        (8, 19),
        (9, 18),
        (0x562, 19),
        (0x563, 18),
        (0x22b5, 19),
        (0x22b6, 18),
    ] {
        let mut div = Div { index, value: 0 };
        div.next();
        assert_eq!(div.value, expected);
    }
}

#[test]
fn calibration_requires_identification_and_holdouts() {
    let mut c = Calibration::default();
    for n in 1..=4 {
        assert!(c.add(sample(n)));
        assert!(c.model().is_none());
    }
    assert!(c.add(sample(5)));
    assert_eq!(c.model(), Some(model()));
    assert!(!c.add(sample(5)));
    assert_eq!(c.samples, 5);
    let mut wrong = sample(6);
    wrong.reads[0] = wrong.reads[0].wrapping_add(9);
    let (first, carry) = random(wrong.before.state, wrong.reads[0], wrong.reads[1], false);
    let (second, _) = random(first, wrong.reads[2], wrong.reads[3], carry);
    wrong.dvs = Dvs(first as u8, second as u8);
    assert!(!c.add(wrong));
    assert!(c.model().is_none());
    assert_eq!(c.samples, 0);
}

#[test]
fn calibration_rejects_bad_path_and_ambiguity() {
    let mut c = Calibration::default();
    let mut s = sample(1);
    s.dvs.0 ^= 1;
    assert!(!c.add(s));
    let mut s = sample(1);
    s.before.state ^= 1;
    assert!(!s.valid());
    let mut s = sample(1);
    s.delay = 513;
    assert!(!s.valid());
    for n in 1..=10 {
        // Different states but identical DIV baselines cannot identify the slope.
        let mut s = sample(1);
        s.start.state = n;
        s.before = s.start;
        s.before.advance(s.delay);
        s.dvs = model().dvs(s.before);
        assert!(c.add(s));
    }
    assert!(c.model().is_none());
}

#[test]
fn search_returns_nearest_without_skipping_chunk_edges() {
    let filter = Filter {
        shiny: false,
        gender: Gender::Female,
        attack: Some(7),
    };
    let mut base = rng();
    let mut delayed = base;
    delayed.advance(model().delay);
    let mut expected = None;
    for advance in 0..10000 {
        let dvs = model().dvs(delayed);
        if advance >= 300 && filter.matches(dvs) {
            expected = Some(Target {
                advance,
                rng: base,
                dvs,
            });
            break;
        }
        base.next();
        delayed.next();
    }
    assert!(expected.is_some());
    let mut search = Search::new(rng(), 0, model());
    assert!(search.chunk(filter, 300).is_none());
    let mut found = None;
    for _ in 0..40 {
        if found.is_none() {
            found = search.chunk(filter, 300);
        }
    }
    assert_eq!(found, expected);
}

#[test]
fn receipt_requires_identity_level_target_shiny_and_move4() {
    let dvs = Dvs(0xfa, 0xaa);
    assert_eq!(
        verify(147, 15, dvs, 0xf5, dvs, Filter::default()),
        Verification::Success
    );
    assert_eq!(
        verify(147, 15, dvs, 0xef, dvs, Filter::default()),
        Verification::MissingExtremeSpeed
    );
    assert_eq!(
        verify(148, 15, dvs, 0xf5, dvs, Filter::default()),
        Verification::Failed
    );
    assert_eq!(
        verify(147, 16, dvs, 0xf5, dvs, Filter::default()),
        Verification::Failed
    );
    assert_eq!(
        verify(147, 15, Dvs(0xea, 0xaa), 0xf5, dvs, Filter::default()),
        Verification::Failed
    );
    assert_eq!(
        verify(147, 15, Dvs(0, 0), 0xf5, Dvs(0, 0), Filter::default()),
        Verification::Failed
    );
}

fn same_baseline(n: u16) -> Sample {
    let mut s = sample(1);
    s.start.state = n;
    s.before = s.start;
    s.before.advance(s.delay);
    s.dvs = model().dvs(s.before);
    s
}

#[test]
fn readding_a_demoted_claim_changes_nothing() {
    let mut c = Calibration::default();
    assert!(c.add(same_baseline(1)));
    assert!(c.add(same_baseline(2)));
    assert!(c.add(same_baseline(3)));
    assert_eq!(c.samples(), 2);
    assert!(c.add(sample(2)));
    assert_eq!(c.samples(), 3);
    assert!(!c.add(same_baseline(3)));
    assert_eq!(c.samples(), 3);
    assert_eq!(c.samples, c.samples());
    assert!(c.model().is_none());
}

#[test]
fn a_repeated_claim_is_no_held_out_validation() {
    let mut c = Calibration::default();
    for n in 1..=3 {
        assert!(c.add(same_baseline(n)));
    }
    assert!(c.add(sample(2)));
    assert!(!c.add(same_baseline(3)));
    assert!(c.add(sample(3)));
    assert_eq!(c.samples(), 4);
    assert!(c.model().is_none());
}

#[test]
fn ambiguous_claims_before_identification_never_validate() {
    let mut c = Calibration::default();
    assert!(c.add(same_baseline(1)));
    assert!(c.add(same_baseline(2)));
    assert!(c.add(sample(2)));
    assert_eq!(c.samples(), 3);
    assert!(!c.add(same_baseline(2)));
    assert!(!c.add(same_baseline(1)));
    assert!(c.add(sample(3)));
    assert!(c.model().is_none());
    assert!(c.add(sample(4)));
    assert_eq!(c.samples(), 5);
    assert_eq!(c.model(), Some(model()));
}

#[test]
fn counting_goes_on_once_five_starts_are_held() {
    let mut c = Calibration::default();
    for n in 1..=3 {
        assert!(c.add(same_baseline(n)));
    }
    assert!(c.add(sample(2)));
    assert!(c.add(sample(3)));
    assert_eq!(c.samples(), 4);
    assert!(c.model().is_none());
    assert!(c.add(sample(4)));
    assert_eq!(c.samples(), 5);
    assert_eq!(c.model(), Some(model()));
    assert!(c.add(sample(5)));
    assert_eq!(c.samples(), 5);
    assert_eq!(c.model(), Some(model()));
}

#[test]
fn five_ambiguous_claims_then_three_identifying_ones() {
    let mut c = Calibration::default();
    for n in 1..=5 {
        assert!(c.add(same_baseline(n)));
    }
    assert_eq!(c.samples(), 2);
    assert!(c.add(sample(2)));
    assert!(c.add(sample(3)));
    assert_eq!(c.samples(), 4);
    assert!(c.add(sample(4)));
    assert_eq!(c.samples(), 5);
    assert_eq!(c.model(), Some(model()));
}

#[test]
fn an_overwritten_start_counts_again() {
    let mut c = Calibration::default();
    for n in 1..=5 {
        assert!(c.add(same_baseline(n)));
    }
    assert!(c.add(sample(2)));
    assert_eq!(c.samples(), 3);
    // The oldest held start gave its slot to sample(2); the newer ones are still held.
    assert!(!c.add(same_baseline(5)));
    assert!(!c.add(same_baseline(2)));
    assert_eq!(c.samples(), 3);
    assert!(c.add(same_baseline(1)));
    assert_eq!(c.samples(), 4);
}

#[test]
fn matches_sample_rejects_another_delay_first() {
    let mut s = sample(3);
    assert!(model().matches_sample(s));
    s.delay = 513;
    assert!(!model().matches_sample(s));
}

#[test]
fn search_without_delay_starts_at_the_cursor() {
    let m = Model { delay: 0, ..model() };
    let any = Filter { shiny: false, gender: Gender::Any, attack: Some(m.dvs(rng()).0 >> 4) };
    let mut search = Search::new(rng(), 40, m);
    let t = search.chunk(any, 0).expect("the first candidate passes");
    assert_eq!(t, Target { advance: 40, rng: rng(), dvs: m.dvs(rng()) });
    assert!(!search.exhausted());
}

#[test]
fn a_count_written_from_outside_is_tolerated() {
    let mut c = Calibration::default();
    c.samples = 7;
    assert!(c.model().is_none());
    assert!(c.add(sample(1)));
    assert_eq!(c.samples, 2);
    let mut c = Calibration::default();
    for n in 1..=5 {
        assert!(c.add(sample(n)));
    }
    c.samples = 4;
    assert!(c.model().is_none());
    assert!(c.add(sample(6)));
    assert_eq!(c.samples, 5);
    assert_eq!(c.model(), Some(model()));
}
