//! English VC manual timing assistant and read-only verifier: the helper's state
//! and its decisions on each overlay frame.
use vstd::prelude::*;
use super::dratini_rng::{
    claim_progress, claim_progress_spec, preflight, preflight_spec, verify, verify_spec,
    ClaimProgress, Dvs, Filter, Gender, Verification, SHINY_ATTACKS,
};
use super::pk2::Pk2;

verus! {

#[derive(Clone, Copy, Debug, PartialEq, Eq, Structural)]
pub enum Status {
    Idle,
    Manual,
    Verifying,
    Success,
    Failed,
}

impl Status {
    pub fn name(self) -> (r: &'static str)
        ensures
            r@ == (match self {
                Status::Idle => "IDLE"@,
                Status::Manual => "MANUAL TIMING"@,
                Status::Verifying => "VERIFYING"@,
                Status::Success => "SUCCESS"@,
                Status::Failed => "FAILED / MANUAL CONTROL"@,
            }),
    {
        match self {
            Status::Idle => "IDLE",
            Status::Manual => "MANUAL TIMING",
            Status::Verifying => "VERIFYING",
            Status::Success => "SUCCESS",
            Status::Failed => "FAILED / MANUAL CONTROL",
        }
    }
}

/// Overlay-frame observation, NOT the state at A or at either gift Random call.
#[derive(Clone, Copy, Debug, PartialEq, Eq)]
pub struct Snapshot {
    pub state: u16,
    pub advance: u32,
    pub adiv: (Option<usize>, u8),
    pub sdiv: (Option<usize>, u8),
}

/// An observation from the Random state, the advance counter, the two DIV
/// trackers' indices and the measured DIV pair (add value high, sub value low).
pub fn snapshot(
    state: u16,
    advance: u32,
    adiv_index: Option<usize>,
    sdiv_index: Option<usize>,
    div: u16,
) -> (r: Snapshot)
    ensures
        r == (Snapshot {
            state,
            advance,
            adiv: (adiv_index, (div / 256) as u8),
            sdiv: (sdiv_index, (div % 256) as u8),
        }),
{
    assert((div >> 8) as u8 == div / 256 && div as u8 == div % 256) by (bit_vector);
    Snapshot { state, advance, adiv: (adiv_index, (div >> 8) as u8), sdiv: (sdiv_index, div as u8) }
}

#[derive(Clone, Copy, Debug, PartialEq, Eq)]
pub struct Observation {
    pub start: Snapshot,
    pub end: Snapshot,
    pub dvs: Dvs,
}

pub struct Helper {
    pub status: Status,
    pub note: &'static str,
    pub filter: Filter,
    pub row: u8,
    pub details: bool,
    pub preset: u8,
    pub party_count: u8,
    pub start_snapshot: Option<Snapshot>,
    pub elapsed: u32,
    pub last_advance: u32,
    pub last_sample: Option<Observation>,
}

impl Default for Helper {
    fn default() -> (r: Self)
        ensures
            r.wf(),
            r.status == Status::Idle,
            r.note@ == "English Crystal VC - manual timing"@,
            r.filter == Filter::default_spec(),
            r.row == 0,
            !r.details,
            r.preset == 0,
            r.party_count == 0,
            r.start_snapshot is None,
            r.elapsed == 0,
            r.last_advance == 0,
            r.last_sample is None,
    {
        Helper {
            status: Status::Idle,
            note: "English Crystal VC - manual timing",
            filter: Filter::default(),
            row: 0,
            details: false,
            preset: 0,
            party_count: 0,
            start_snapshot: None,
            elapsed: 0,
            last_advance: 0,
            last_sample: None,
        }
    }
}

/// Frame input to the helper's menu: whether the overlay is locked, whether X
/// and Y are held, and which of X, Y, Up and Down were just pressed.
#[derive(Clone, Copy, Debug, PartialEq, Eq)]
pub struct MenuInput {
    pub locked: bool,
    pub x_held: bool,
    pub y_held: bool,
    pub x_pressed: bool,
    pub y_pressed: bool,
    pub up_pressed: bool,
    pub down_pressed: bool,
}

/// What the menu asks of the overlay after an input.
#[derive(Clone, Copy, Debug, PartialEq, Eq, Structural)]
pub enum MenuAction {
    Continue,
    StartClaim,
}

/// The next Attack choice: Any, then each shiny-valid Attack DV in order, then
/// Any again.
pub open spec fn next_attack_spec(attack: Option<u8>) -> Option<u8> {
    match attack {
        None => Some(2u8),
        Some(a) => if a == 2 {
            Some(3u8)
        } else if a == 3 {
            Some(6u8)
        } else if a == 6 {
            Some(7u8)
        } else if a == 7 {
            Some(10u8)
        } else if a == 10 {
            Some(11u8)
        } else if a == 11 {
            Some(14u8)
        } else if a == 14 {
            Some(15u8)
        } else {
            None
        },
    }
}

fn next_attack(attack: Option<u8>) -> (r: Option<u8>)
    ensures
        r == next_attack_spec(attack),
{
    match attack {
        None => Some(2),
        Some(a) => {
            let mut i: usize = 0;
            assert(SHINY_ATTACKS[0] == 2 && SHINY_ATTACKS[1] == 3 && SHINY_ATTACKS[2] == 6
                && SHINY_ATTACKS[3] == 7 && SHINY_ATTACKS[4] == 10 && SHINY_ATTACKS[5] == 11
                && SHINY_ATTACKS[6] == 14 && SHINY_ATTACKS[7] == 15);
            while i < 8
                invariant
                    i <= 8,
                    attack == Some(a),
                    SHINY_ATTACKS[0] == 2 && SHINY_ATTACKS[1] == 3 && SHINY_ATTACKS[2] == 6
                        && SHINY_ATTACKS[3] == 7 && SHINY_ATTACKS[4] == 10 && SHINY_ATTACKS[5]
                        == 11 && SHINY_ATTACKS[6] == 14 && SHINY_ATTACKS[7] == 15,
                    forall|j: int| 0 <= j < i ==> SHINY_ATTACKS[j] != a,
                decreases 8 - i,
            {
                if SHINY_ATTACKS[i] == a {
                    if i + 1 < 8 {
                        return Some(SHINY_ATTACKS[i + 1]);
                    } else {
                        return None;
                    }
                }
                i = i + 1;
            }
            None
        },
    }
}

/// The next gender choice: Any, Male, Female, Any.
pub open spec fn next_gender(gender: Gender) -> Gender {
    match gender {
        Gender::Any => Gender::Male,
        Gender::Male => Gender::Female,
        Gender::Female => Gender::Any,
    }
}

/// `h` stopped with `note`: failed, the note shown, nothing armed.
pub open spec fn stopped_with(h: Helper, note: &'static str) -> Helper {
    Helper { status: Status::Failed, note, start_snapshot: None, ..h }
}

/// The menu after one frame of input. Locked, or with X and Y held, nothing
/// changes. Y toggles between the options and the live page. On the live page X
/// cancels. On the options, Up and Down move through the six rows (Up first),
/// and X on a row toggles shininess, cycles the gender, cycles the Attack DV, or
/// cycles the preset (each re-arming by stopping), asks to start a claim on the
/// fifth row, and on the last cancels and clears the observation.
pub open spec fn after_input(h: Helper, input: MenuInput) -> (Helper, MenuAction) {
    if input.locked || (input.x_held && input.y_held) {
        (h, MenuAction::Continue)
    } else {
        let h1 = Helper { details: if input.y_pressed { !h.details } else { h.details }, ..h };
        if h1.details {
            if input.x_pressed {
                (stopped_with(h1, "Cancelled; manual control"), MenuAction::Continue)
            } else {
                (h1, MenuAction::Continue)
            }
        } else {
            let row1 = if input.up_pressed { ((h1.row + 5) % 6) as u8 } else { h1.row };
            let row2 = if input.down_pressed { ((row1 + 1) % 6) as u8 } else { row1 };
            let h2 = Helper { row: row2, ..h1 };
            if !input.x_pressed {
                (h2, MenuAction::Continue)
            } else if row2 == 0 {
                (
                    stopped_with(
                        Helper { filter: Filter { shiny: !h2.filter.shiny, ..h2.filter }, ..h2 },
                        "Filter changed; re-arm",
                    ),
                    MenuAction::Continue,
                )
            } else if row2 == 1 {
                (
                    stopped_with(
                        Helper {
                            filter: Filter { gender: next_gender(h2.filter.gender), ..h2.filter },
                            ..h2
                        },
                        "Filter changed; re-arm",
                    ),
                    MenuAction::Continue,
                )
            } else if row2 == 2 {
                (
                    stopped_with(
                        Helper {
                            filter: Filter {
                                attack: next_attack_spec(h2.filter.attack),
                                ..h2.filter
                            },
                            ..h2
                        },
                        "Filter changed; re-arm",
                    ),
                    MenuAction::Continue,
                )
            } else if row2 == 3 {
                let preset = ((h2.preset + 1) % 4) as u8;
                (
                    stopped_with(
                        Helper { preset, filter: Filter::preset_spec(preset), ..h2 },
                        "Preset changed; re-arm",
                    ),
                    MenuAction::Continue,
                )
            } else if row2 == 4 {
                (h2, MenuAction::StartClaim)
            } else {
                (
                    Helper { last_sample: None, ..stopped_with(h2, "Cancelled; manual control") },
                    MenuAction::Continue,
                )
            }
        }
    }
}

impl Helper {
    /// One frame of menu input; `StartClaim` asks the overlay to read the game and
    /// call `start`.
    pub fn press(&mut self, input: MenuInput) -> (action: MenuAction)
        requires
            old(self).wf(),
        ensures
            final(self).wf(),
            (*final(self), action) == after_input(*old(self), input),
    {
        if input.locked || input.x_held && input.y_held {
            return MenuAction::Continue;
        }
        if input.y_pressed {
            self.details = !self.details;
        }
        if !self.details {
            if input.up_pressed {
                self.row = (self.row + 5) % 6;
            }
            if input.down_pressed {
                self.row = (self.row + 1) % 6;
            }
            if input.x_pressed {
                match self.row {
                    0 => {
                        self.filter.shiny = !self.filter.shiny;
                        self.stop("Filter changed; re-arm");
                    },
                    1 => {
                        self.filter.gender =
                            match self.filter.gender {
                                Gender::Any => Gender::Male,
                                Gender::Male => Gender::Female,
                                Gender::Female => Gender::Any,
                            };
                        self.stop("Filter changed; re-arm");
                    },
                    2 => {
                        self.filter.attack = next_attack(self.filter.attack);
                        self.stop("Filter changed; re-arm");
                    },
                    3 => {
                        self.preset = (self.preset + 1) % 4;
                        self.filter = Filter::preset(self.preset);
                        self.stop("Preset changed; re-arm");
                    },
                    4 => {
                        return MenuAction::StartClaim;
                    },
                    _ => {
                        self.stop("Cancelled; manual control");
                        self.last_sample = None;
                    },
                }
            }
        } else if input.x_pressed {
            self.stop("Cancelled; manual control");
        }
        MenuAction::Continue
    }

    /// The menu row and preset stay in range, and an armed claim began with at
    /// most five Pokemon.
    pub open spec fn wf(self) -> bool {
        &&& self.row < 6
        &&& self.preset < 4
        &&& self.start_snapshot is Some ==> self.party_count <= 5
    }

    pub fn stop(&mut self, note: &'static str)
        ensures
            *final(self) == stopped_with(*old(self), note),
    {
        self.status = Status::Failed;
        self.note = note;
        self.start_snapshot = None;
    }

    /// Arms a manual claim when the game is eligible and the filter possible;
    /// otherwise stops with the reason. The result asks the overlay to request
    /// the existing pause loop; this is not a calibrated target or an exact
    /// input-time snapshot.
    pub fn start(&mut self, count: u8, received: bool, prompt: bool, now: Snapshot) -> (pause: bool)
        requires
            old(self).wf(),
        ensures
            final(self).wf(),
            match preflight_spec(count, received, prompt) {
                Err(reason) => !pause && *final(self) == stopped_with(*old(self), reason),
                Ok(_) => if !old(self).filter.is_possible() {
                    !pause && *final(self) == stopped_with(
                        *old(self),
                        "Gender and Attack filters conflict",
                    )
                } else {
                    pause && *final(self) == Helper {
                        status: Status::Manual,
                        note: "Release keys; press A once to claim",
                        party_count: count,
                        elapsed: 0,
                        last_advance: now.advance,
                        start_snapshot: Some(now),
                        last_sample: None,
                        details: true,
                        ..*old(self)
                    }
                },
            },
    {
        if let Err(reason) = preflight(count, received, prompt) {
            self.stop(reason);
            return false;
        }
        if !self.filter.possible() {
            self.stop("Gender and Attack filters conflict");
            return false;
        }
        self.party_count = count;
        self.elapsed = 0;
        self.last_advance = now.advance;
        self.start_snapshot = Some(now);
        self.last_sample = None;
        self.details = true;
        self.status = Status::Manual;
        self.note = "Release keys; press A once to claim";
        true
    }

    /// The receipt: records the observation and checks the gift in the new party
    /// slot against the filter and ExtremeSpeed. Nothing happens unless armed.
    pub fn finish(&mut self, mon: Pk2, level: u8, move4: u8, end: Snapshot)
        requires
            old(self).wf(),
        ensures
            final(self).wf(),
            match old(self).start_snapshot {
                None => *final(self) == *old(self),
                Some(start) => {
                    let dvs = Dvs((mon.atk << 4) | mon.def, (mon.spe << 4) | mon.spc);
                    let recorded = Helper {
                        start_snapshot: None,
                        last_sample: Some(Observation { start, end, dvs }),
                        ..*old(self)
                    };
                    match verify_spec(mon.spec_index, level, dvs, move4, dvs, old(self).filter) {
                        Verification::Success => *final(self) == Helper {
                            status: Status::Success,
                            note: "Natural gift matches filters; move4 F5",
                            ..recorded
                        },
                        Verification::MissingExtremeSpeed => *final(self) == Helper {
                            status: Status::Failed,
                            note: if dvs.is_shiny() {
                                "SHINY OK - EXTREMESPEED MISSING"
                            } else {
                                "DVS OK - EXTREMESPEED MISSING"
                            },
                            ..recorded
                        },
                        Verification::Failed => *final(self) == stopped_with(
                            recorded,
                            "Gift identity or DV filters mismatch",
                        ),
                    }
                },
            },
    {
        let start = match self.start_snapshot {
            Some(s) => s,
            None => {
                return;
            },
        };
        self.start_snapshot = None;
        let dvs = Dvs((mon.atk << 4) | mon.def, (mon.spe << 4) | mon.spc);
        self.last_sample = Some(Observation { start, end, dvs });
        match verify(mon.spec_index, level, dvs, move4, dvs, self.filter) {
            Verification::Success => {
                self.status = Status::Success;
                self.note = "Natural gift matches filters; move4 F5";
            },
            Verification::MissingExtremeSpeed => {
                self.status = Status::Failed;
                self.note =
                    if dvs.shiny() {
                        "SHINY OK - EXTREMESPEED MISSING"
                    } else {
                        "DVS OK - EXTREMESPEED MISSING"
                    };
            },
            Verification::Failed => self.stop("Gift identity or DV filters mismatch"),
        }
    }

    /// Cancels an armed claim; nothing else changes otherwise.
    pub fn cancel(&mut self)
        ensures
            old(self).start_snapshot is Some ==> *final(self) == stopped_with(
                *old(self),
                "Cancelled; manual control",
            ),
            old(self).start_snapshot is None ==> *final(self) == *old(self),
    {
        if self.start_snapshot.is_some() {
            self.stop("Cancelled; manual control");
        }
    }

    /// One ordinary overlay update of an armed claim, from the party count, the
    /// received flag, whether the game is in the shrine and the advance counter.
    /// No exact claim marker or generation offset is inferred: this interval also
    /// includes input latency, text and nickname time. The result is true when
    /// the claim is complete and the gift should be read and passed to `finish`.
    pub fn tick(&mut self, count: u8, received: bool, in_shrine: bool, advance: u32) -> (complete:
        bool)
        requires
            old(self).wf(),
        ensures
            final(self).wf(),
            old(self).start_snapshot is None ==> !complete && *final(self) == *old(self),
            old(self).start_snapshot is Some ==> {
                let o = *old(self);
                let elapsed = if o.elapsed == u32::MAX { u32::MAX } else { (o.elapsed + 1) as u32 };
                let counted = Helper { elapsed, ..o };
                match claim_progress_spec(
                    o.party_count,
                    count,
                    received,
                    in_shrine,
                    elapsed,
                    advance >= o.last_advance,
                ) {
                    ClaimProgress::Failed => !complete && *final(self) == stopped_with(
                        counted,
                        "Claim interrupted, reset or timed out",
                    ),
                    ClaimProgress::Complete => complete && *final(self) == counted,
                    ClaimProgress::Waiting => !complete && if count == o.party_count + 1 {
                        *final(self) == Helper {
                            last_advance: advance,
                            status: Status::Verifying,
                            note: "Finish nickname and gift text normally",
                            ..counted
                        }
                    } else {
                        *final(self) == Helper { last_advance: advance, ..counted }
                    },
                }
            },
    {
        if self.start_snapshot.is_none() {
            return false;
        }
        self.elapsed = self.elapsed.saturating_add(1);
        match claim_progress(
            self.party_count,
            count,
            received,
            in_shrine,
            self.elapsed,
            advance >= self.last_advance,
        ) {
            ClaimProgress::Failed => {
                self.stop("Claim interrupted, reset or timed out");
                false
            },
            ClaimProgress::Complete => true,
            ClaimProgress::Waiting => {
                self.last_advance = advance;
                if count == self.party_count + 1 {
                    self.status = Status::Verifying;
                    self.note = "Finish nickname and gift text normally";
                }
                false
            },
        }
    }
}

} // verus!
