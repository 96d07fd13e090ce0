use reader_core::crystal::dratini::{snapshot, Helper, MenuAction, MenuInput, Snapshot, Status};
use reader_core::crystal::dratini_rng::{
    claim_progress, preflight, ClaimProgress, Dvs, Filter, Gender,
};
use reader_core::crystal::pk2::Pk2;

fn snap(state: u16, advance: u32) -> Snapshot {
    snapshot(state, advance, Some(468), Some(16139), 0x7812)
}

fn input() -> MenuInput {
    MenuInput {
        locked: false,
        x_held: false,
        y_held: false,
        x_pressed: false,
        y_pressed: false,
        up_pressed: false,
        down_pressed: false,
    }
}

fn armed(count: u8) -> Helper {
    let mut h = Helper::default();
    assert!(h.start(count, false, true, snap(0x1234, 100)));
    h
}

fn dratini(atkdef: u8, spespc: u8) -> Pk2 {
    Pk2::new(147, atkdef, spespc, 0)
}

#[test]
fn default_helper_and_names() {
    let h = Helper::default();
    assert_eq!(h.status, Status::Idle);
    assert_eq!(h.note, "English Crystal VC - manual timing");
    assert_eq!(h.filter, Filter::default());
    assert_eq!((h.row, h.details, h.preset, h.party_count), (0, false, 0, 0));
    assert!(h.start_snapshot.is_none() && h.last_sample.is_none());
    assert_eq!(Status::Idle.name(), "IDLE");
    assert_eq!(Status::Manual.name(), "MANUAL TIMING");
    assert_eq!(Status::Verifying.name(), "VERIFYING");
    assert_eq!(Status::Success.name(), "SUCCESS");
    assert_eq!(Status::Failed.name(), "FAILED / MANUAL CONTROL");
    assert_eq!(Gender::Any.name(), "Any");
    assert_eq!(Gender::Male.name(), "Male");
    assert_eq!(Gender::Female.name(), "Female");
}

#[test]
fn snapshot_splits_the_div_pair() {
    let s = snapshot(0x9fe3, 7, Some(1), None, 0xab12);
    assert_eq!(s.state, 0x9fe3);
    assert_eq!(s.advance, 7);
    assert_eq!(s.adiv, (Some(1), 0xab));
    assert_eq!(s.sdiv, (None, 0x12));
}

#[test]
fn preflight_eligibility() {
    assert_eq!(preflight(3, false, true), Ok(()));
    assert_eq!(preflight(1, false, true), Ok(()));
    assert_eq!(preflight(5, false, true), Ok(()));
    assert_eq!(preflight(3, true, true), Err("Dratini already received"));
    assert_eq!(preflight(0, false, true), Err("Party must hold 1-5 Pokemon"));
    assert_eq!(preflight(6, false, true), Err("Party must hold 1-5 Pokemon"));
    assert_eq!(preflight(3, false, false), Err("Stop at the elder's final text"));
}

#[test]
fn filter_possibility() {
    assert!(Filter::default().possible());
    let shiny_valid = [2u8, 3, 6, 7, 10, 11, 14, 15];
    for a in 0..16u8 {
        let female = Filter { shiny: false, gender: Gender::Female, attack: Some(a) };
        let male = Filter { shiny: false, gender: Gender::Male, attack: Some(a) };
        assert_eq!(female.possible(), a < 8);
        assert_eq!(male.possible(), a >= 8);
        let shiny_female = Filter { shiny: true, gender: Gender::Female, attack: Some(a) };
        let shiny_any = Filter { shiny: true, gender: Gender::Any, attack: Some(a) };
        assert_eq!(shiny_female.possible(), a < 8 && shiny_valid.contains(&a));
        assert_eq!(shiny_any.possible(), shiny_valid.contains(&a));
    }
    assert!(!Filter { shiny: true, gender: Gender::Any, attack: Some(0) }.possible());
    assert!(!Filter { shiny: false, gender: Gender::Any, attack: Some(16) }.possible());
    assert!(Filter { shiny: false, gender: Gender::Male, attack: None }.possible());
}

#[test]
fn claim_progress_cases() {
    assert_eq!(claim_progress(3, 3, false, true, 1, true), ClaimProgress::Waiting);
    assert_eq!(claim_progress(3, 4, false, true, 1, true), ClaimProgress::Waiting);
    assert_eq!(claim_progress(3, 4, true, true, 1, true), ClaimProgress::Complete);
    assert_eq!(claim_progress(3, 3, true, true, 1, true), ClaimProgress::Failed);
    assert_eq!(claim_progress(3, 5, false, true, 1, true), ClaimProgress::Failed);
    assert_eq!(claim_progress(3, 2, false, true, 1, true), ClaimProgress::Failed);
    assert_eq!(claim_progress(3, 4, true, false, 1, true), ClaimProgress::Failed);
    assert_eq!(claim_progress(3, 4, true, true, 1, false), ClaimProgress::Failed);
    assert_eq!(claim_progress(3, 3, false, true, 7200, true), ClaimProgress::Waiting);
    assert_eq!(claim_progress(3, 3, false, true, 7201, true), ClaimProgress::Failed);
    assert_eq!(claim_progress(255, 0, true, true, 1, true), ClaimProgress::Failed);
}

#[test]
fn start_refuses_ineligible_claims() {
    let mut h = Helper::default();
    assert!(!h.start(3, true, true, snap(1, 2)));
    assert_eq!(h.status, Status::Failed);
    assert_eq!(h.note, "Dratini already received");
    assert!(h.start_snapshot.is_none());
    let mut h = Helper::default();
    h.filter = Filter { shiny: true, gender: Gender::Female, attack: Some(15) };
    assert!(!h.start(3, false, true, snap(1, 2)));
    assert_eq!(h.note, "Gender and Attack filters conflict");
    assert_eq!(h.status, Status::Failed);
}

#[test]
fn start_arms_a_manual_claim() {
    let h = armed(3);
    assert_eq!(h.status, Status::Manual);
    assert_eq!(h.note, "Release keys; press A once to claim");
    assert_eq!(h.party_count, 3);
    assert_eq!(h.last_advance, 100);
    assert_eq!(h.start_snapshot, Some(snap(0x1234, 100)));
    assert!(h.details);
    assert_eq!(h.elapsed, 0);
}

#[test]
fn tick_waits_verifies_and_completes() {
    let mut h = Helper::default();
    assert!(!h.tick(4, true, true, 200));
    assert_eq!(h.status, Status::Idle);
    let mut h = armed(3);
    assert!(!h.tick(3, false, true, 101));
    assert_eq!(h.status, Status::Manual);
    assert_eq!(h.last_advance, 101);
    assert_eq!(h.elapsed, 1);
    assert!(!h.tick(4, false, true, 102));
    assert_eq!(h.status, Status::Verifying);
    assert_eq!(h.note, "Finish nickname and gift text normally");
    assert!(h.tick(4, true, true, 103));
    assert_eq!(h.elapsed, 3);
    assert!(h.start_snapshot.is_some());
}

#[test]
fn tick_stops_on_interruptions() {
    for (count, in_shrine, advance) in [(3, false, 101), (3, true, 99), (5, true, 101)] {
        let mut h = armed(3);
        assert!(!h.tick(count, false, in_shrine, advance));
        assert_eq!(h.status, Status::Failed);
        assert_eq!(h.note, "Claim interrupted, reset or timed out");
        assert!(h.start_snapshot.is_none());
    }
    let mut h = armed(3);
    for _ in 0..7200 {
        assert!(!h.tick(3, false, true, 100));
    }
    assert_eq!(h.status, Status::Manual);
    assert!(!h.tick(3, false, true, 100));
    assert_eq!(h.status, Status::Failed);
}

#[test]
fn finish_reports_the_receipt() {
    let mut h = armed(3);
    h.finish(dratini(0xfa, 0xaa), 15, 0xf5, snap(0x5555, 400));
    assert_eq!(h.status, Status::Success);
    assert_eq!(h.note, "Natural gift matches filters; move4 F5");
    let sample = h.last_sample.unwrap();
    assert_eq!(sample.dvs, Dvs(0xfa, 0xaa));
    assert_eq!(sample.start, snap(0x1234, 100));
    assert_eq!(sample.end, snap(0x5555, 400));
    assert!(h.start_snapshot.is_none());

    let mut h = armed(3);
    h.finish(dratini(0xfa, 0xaa), 15, 0x10, snap(0x5555, 400));
    assert_eq!(h.status, Status::Failed);
    assert_eq!(h.note, "SHINY OK - EXTREMESPEED MISSING");

    let mut h = armed(3);
    h.filter = Filter { shiny: false, gender: Gender::Any, attack: Some(15) };
    h.finish(dratini(0xf1, 0x23), 15, 0x10, snap(0x5555, 400));
    assert_eq!(h.note, "DVS OK - EXTREMESPEED MISSING");

    let mut h = armed(3);
    h.finish(Pk2::new(148, 0xfa, 0xaa, 0), 15, 0xf5, snap(0x5555, 400));
    assert_eq!(h.status, Status::Failed);
    assert_eq!(h.note, "Gift identity or DV filters mismatch");
    assert!(h.last_sample.is_some());

    let mut h = Helper::default();
    h.finish(dratini(0xfa, 0xaa), 15, 0xf5, snap(0x5555, 400));
    assert_eq!(h.status, Status::Idle);
    assert!(h.last_sample.is_none());
}

#[test]
fn cancel_only_stops_an_armed_claim() {
    let mut h = Helper::default();
    h.cancel();
    assert_eq!(h.status, Status::Idle);
    let mut h = armed(2);
    h.cancel();
    assert_eq!(h.status, Status::Failed);
    assert_eq!(h.note, "Cancelled; manual control");
    assert!(h.start_snapshot.is_none());
}

#[test]
fn menu_rows_and_filters() {
    let mut h = Helper::default();
    assert_eq!(h.press(MenuInput { up_pressed: true, ..input() }), MenuAction::Continue);
    assert_eq!(h.row, 5);
    assert_eq!(h.press(MenuInput { down_pressed: true, ..input() }), MenuAction::Continue);
    assert_eq!(h.row, 0);
    h.press(MenuInput { x_pressed: true, ..input() });
    assert!(!h.filter.shiny);
    assert_eq!(h.note, "Filter changed; re-arm");
    assert_eq!(h.status, Status::Failed);
    h.press(MenuInput { down_pressed: true, x_pressed: true, ..input() });
    assert_eq!(h.filter.gender, Gender::Male);
    h.press(MenuInput { x_pressed: true, ..input() });
    assert_eq!(h.filter.gender, Gender::Female);
    h.press(MenuInput { x_pressed: true, ..input() });
    assert_eq!(h.filter.gender, Gender::Any);
    h.press(MenuInput { down_pressed: true, ..input() });
    let mut seen = Vec::new();
    for _ in 0..9 {
        h.press(MenuInput { x_pressed: true, ..input() });
        seen.push(h.filter.attack);
    }
    assert_eq!(
        seen,
        vec![Some(2), Some(3), Some(6), Some(7), Some(10), Some(11), Some(14), Some(15), None]
    );
    h.press(MenuInput { down_pressed: true, x_pressed: true, ..input() });
    assert_eq!(h.preset, 1);
    assert_eq!(h.filter, Filter::preset(1));
    assert_eq!(h.note, "Preset changed; re-arm");
    for _ in 0..3 {
        h.press(MenuInput { x_pressed: true, ..input() });
    }
    assert_eq!(h.preset, 0);
    assert_eq!(h.filter, Filter::default());
    assert_eq!(h.press(MenuInput { down_pressed: true, x_pressed: true, ..input() }), MenuAction::StartClaim);
    assert_eq!(h.row, 4);
}

#[test]
fn menu_cancel_details_and_lock() {
    let mut h = armed(3);
    h.finish(dratini(0xfa, 0xaa), 15, 0xf5, snap(0x5555, 400));
    assert!(h.details);
    h.press(MenuInput { y_pressed: true, ..input() });
    assert!(!h.details);
    h.press(MenuInput { up_pressed: true, x_pressed: true, ..input() });
    assert_eq!(h.row, 5);
    assert!(h.last_sample.is_none());
    assert_eq!(h.note, "Cancelled; manual control");

    let mut h = armed(3);
    h.press(MenuInput { x_pressed: true, ..input() });
    assert_eq!(h.status, Status::Failed);
    assert_eq!(h.note, "Cancelled; manual control");
    assert!(h.filter.shiny);

    let mut h = armed(3);
    assert_eq!(h.press(MenuInput { locked: true, x_pressed: true, y_pressed: true, ..input() }), MenuAction::Continue);
    assert_eq!(h.status, Status::Manual);
    assert!(h.details);
    h.press(MenuInput { x_held: true, y_held: true, x_pressed: true, y_pressed: true, ..input() });
    assert_eq!(h.status, Status::Manual);
    assert!(h.details);
}
