use reader_core::crystal::dratini_rng::{
    random, Calibration, Div, Dvs, Filter, Gender, Model, Rng, Sample, Search, Transform,
};

fn start_rng() -> Rng {
    Rng {
        state: 0x9fe3,
        add: Div { index: 468, value: 0x78 },
        sub: Div { index: 16139, value: 0x78 },
    }
}

fn two_slope_model() -> Model {
    Model {
        delay: 3,
        reads: [
            Transform { slope: 2, offset: 5 },
            Transform { slope: 1, offset: 0 },
            Transform { slope: 0, offset: 77 },
            Transform { slope: 1, offset: 200 },
        ],
    }
}

fn observed(model: Model, n: u8) -> Sample {
    let mut start = start_rng();
    start.add.value = n;
    start.sub.value = n.wrapping_mul(7).wrapping_add(3);
    start.state = u16::from(n) * 251;
    let mut before = start;
    before.advance(model.delay);
    let base = [before.add.value, before.sub.value, before.add.value, before.sub.value];
    let mut reads = [0u8; 4];
    for i in 0..4 {
        reads[i] = base[i].wrapping_mul(model.reads[i].slope).wrapping_add(model.reads[i].offset);
    }
    Sample { start, delay: model.delay, before, reads, dvs: model.dvs(before) }
}

#[test]
fn exactly_eight_shiny_spreads() {
    let mut shiny = Vec::new();
    for raw in 0..=u16::MAX {
        let dvs = Dvs((raw >> 8) as u8, raw as u8);
        if dvs.shiny() {
            shiny.push(dvs.0);
            assert_eq!(dvs.1, 0xaa);
        }
    }
    assert_eq!(shiny, vec![0x2a, 0x3a, 0x6a, 0x7a, 0xaa, 0xba, 0xea, 0xfa]);
}

#[test]
fn conflicting_filters_accept_nothing() {
    for (gender, attack) in [(Gender::Female, 8), (Gender::Female, 15), (Gender::Male, 0), (Gender::Male, 7)] {
        for shiny in [false, true] {
            let filter = Filter { shiny, gender, attack: Some(attack) };
            assert!(!filter.possible());
            for raw in 0..=u16::MAX {
                assert!(!filter.matches(Dvs((raw >> 8) as u8, raw as u8)));
            }
        }
    }
}

#[test]
fn random_add_and_borrow_formula() {
    for state in [0u16, 0x00ff, 0x7f80, 0xff00, 0xffff, 0x9fe3] {
        for adiv in [0u8, 1, 127, 255] {
            for sdiv in [0u8, 1, 128, 255] {
                for carry in [false, true] {
                    let t = u32::from(state >> 8) + u32::from(adiv) + u32::from(carry);
                    let u = u32::from(sdiv) + u32::from(t > 255);
                    let sub = u32::from(state & 255);
                    let expected_low = (sub + 512 - u) % 256;
                    let (out, borrow) = random(state, adiv, sdiv, carry);
                    assert_eq!(u32::from(out), (t % 256) * 256 + expected_low);
                    assert_eq!(borrow, sub < u);
                }
            }
        }
    }
}

#[test]
fn div_index_stays_within_its_table() {
    for index in [0u16, 7, 8, 9, 0x562, 0x3ffe, 0x3fff] {
        let mut div = Div { index, value: 200 };
        div.next();
        assert!(div.index < 0x4000);
        assert_eq!(div.index, (index + 1) % 0x4000);
    }
}

#[test]
fn advancing_composes_and_commutes_with_next() {
    let mut a = start_rng();
    a.advance(3);
    a.advance(5);
    let mut b = start_rng();
    b.advance(8);
    assert_eq!(a, b);
    let mut c = start_rng();
    c.next();
    c.advance(7);
    assert_eq!(c, b);
}

#[test]
fn identified_model_explains_every_accepted_sample() {
    let model = two_slope_model();
    let mut c = Calibration::default();
    let samples: Vec<Sample> = (1..=5).map(|n| observed(model, n * 37)).collect();
    for s in &samples {
        assert!(s.valid());
        assert!(c.add(*s));
    }
    let found = c.model().expect("five distinct consistent samples identify a model");
    assert_eq!(found.delay, model.delay);
    for s in &samples {
        assert!(found.matches_sample(*s));
        assert_eq!(found.dvs(s.before), s.dvs);
    }
    for n in 6..40u8 {
        let s = observed(model, n * 5);
        assert_eq!(found.dvs(s.before), model.dvs(s.before));
    }
}

#[test]
fn repeated_start_changes_nothing() {
    let model = two_slope_model();
    let mut c = Calibration::default();
    assert!(c.add(observed(model, 10)));
    assert!(c.add(observed(model, 20)));
    assert_eq!(c.samples, 2);
    assert!(!c.add(observed(model, 20)));
    assert!(!c.add(observed(model, 10)));
    assert_eq!(c.samples, 2);
    assert!(c.model().is_none());
}

#[test]
fn delay_mismatch_and_inconsistent_reads_reset() {
    let model = two_slope_model();
    let mut c = Calibration::default();
    assert!(c.add(observed(model, 10)));
    let other = Model { delay: 4, ..model };
    assert!(!c.add(observed(other, 20)));
    assert_eq!(c.samples, 0);
    assert!(c.add(observed(model, 10)));
    let mut s = observed(model, 30);
    s.reads[2] = s.reads[2].wrapping_add(1);
    let (first, carry) = random(s.before.state, s.reads[0], s.reads[1], false);
    let (second, _) = random(first, s.reads[2], s.reads[3], carry);
    s.dvs = Dvs(first as u8, second as u8);
    assert!(!c.add(s));
    assert_eq!(c.samples, 0);
    assert!(c.model().is_none());
}

#[test]
fn chunks_enumerate_candidates_without_skipping() {
    let model = two_slope_model();
    let filter = Filter { shiny: false, gender: Gender::Male, attack: None };
    let mut brute = Vec::new();
    let mut cursor = start_rng();
    let mut delayed = start_rng();
    delayed.advance(model.delay);
    for advance in 10..1000u32 {
        let dvs = model.dvs(delayed);
        if filter.matches(dvs) {
            brute.push((advance, cursor, dvs));
        }
        cursor.next();
        delayed.next();
    }
    let mut search = Search::new(start_rng(), 10, model);
    let mut found = Vec::new();
    let mut last = 10;
    while found.len() < brute.len() {
        if let Some(t) = search.chunk(filter, last) {
            found.push((t.advance, t.rng, t.dvs));
            last = t.advance + 1;
        }
    }
    assert_eq!(found, brute);
    assert!(!search.exhausted());
}

#[test]
fn search_stops_at_the_last_advance() {
    let model = two_slope_model();
    let reject = Filter { shiny: true, gender: Gender::Female, attack: Some(15) };
    let mut search = Search::new(start_rng(), u32::MAX - 3, model);
    assert!(search.chunk(reject, 0).is_none());
    assert!(search.exhausted());
    let mut search = Search::new(start_rng(), u32::MAX, model);
    let any = Filter { shiny: false, gender: Gender::Any, attack: Some((model.dvs({
        let mut d = start_rng();
        d.advance(model.delay);
        d
    }).0) >> 4) };
    assert!(search.chunk(any, 0).is_none());
    assert!(search.exhausted());
}

#[test]
fn each_empty_chunk_looks_at_a_whole_chunk() {
    let model = two_slope_model();
    let reject = Filter { shiny: true, gender: Gender::Any, attack: Some(0) };
    let mut search = Search::new(start_rng(), 1000, model);
    for _ in 0..3 {
        assert!(search.chunk(reject, 0).is_none());
    }
    assert!(!search.exhausted());
    let mut cursor = start_rng();
    cursor.advance(768);
    let mut delayed = cursor;
    delayed.advance(model.delay);
    let any = Filter { shiny: false, gender: Gender::Any, attack: Some(model.dvs(delayed).0 >> 4) };
    let t = search.chunk(any, 0).expect("the next candidate passes");
    assert_eq!(t.advance, 1768);
    assert_eq!(t.rng, cursor);
    assert_eq!(t.dvs, model.dvs(delayed));
}
