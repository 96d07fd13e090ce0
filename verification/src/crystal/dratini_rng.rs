//! Crystal timing arithmetic: DV filters, the DIV tables, the Random routine,
//! calibration of read transforms and the nearest-target search.
use vstd::prelude::*;
use vstd::arithmetic::div_mod::{lemma_sub_mod_noop_right, lemma_add_mod_noop_right};

verus! {

/// The Attack DVs that a shiny Game Boy Color Pokemon can have.
pub const SHINY_ATTACKS: [u8; 8] = [2, 3, 6, 7, 10, 11, 14, 15];

/// Whether `atk` is one of [`SHINY_ATTACKS`].
pub open spec fn is_shiny_attack(atk: int) -> bool {
    atk == 2 || atk == 3 || atk == 6 || atk == 7 || atk == 10 || atk == 11 || atk == 14 || atk
        == 15
}

fn shiny_attack(atk: u8) -> (r: bool)
    ensures
        r == is_shiny_attack(atk as int),
{
    atk == 2 || atk == 3 || atk == 6 || atk == 7 || atk == 10 || atk == 11 || atk == 14 || atk
        == 15
}

#[derive(Clone, Copy, Debug, PartialEq, Eq, Structural)]
pub enum Gender {
    Any,
    Male,
    Female,
}

impl Gender {
    pub fn name(self) -> (r: &'static str)
        ensures
            r@ == (match self {
                Gender::Any => "Any"@,
                Gender::Male => "Male"@,
                Gender::Female => "Female"@,
            }),
    {
        match self {
            Gender::Any => "Any",
            Gender::Male => "Male",
            Gender::Female => "Female",
        }
    }
}

/// The two DV bytes of a Game Boy Pokemon: Attack/Defense, then Speed/Special.
#[derive(Clone, Copy, Debug, PartialEq, Eq, Structural)]
pub struct Dvs(pub u8, pub u8);

impl Dvs {
    /// The Attack DV, the high nibble of the first byte.
    pub open spec fn attack(self) -> int {
        self.0 as int / 16
    }

    /// Shiny: Defense 10, Speed 10, Special 10 and a shiny-valid Attack.
    pub open spec fn is_shiny(self) -> bool {
        &&& self.1 == 0xaa
        &&& self.0 % 16 == 10
        &&& is_shiny_attack(self.attack())
    }

    /// Female Dratini have an Attack DV of 0 to 7, male ones 8 to 15.
    pub open spec fn gender_of(self) -> Gender {
        if self.attack() < 8 {
            Gender::Female
        } else {
            Gender::Male
        }
    }

    pub fn shiny(self) -> (r: bool)
        ensures
            r == self.is_shiny(),
    {
        let a = self.0;
        assert(a & 15 == a % 16) by (bit_vector);
        assert(a >> 4 == a / 16) by (bit_vector);
        self.1 == 0xaa && self.0 & 15 == 10 && shiny_attack(self.0 >> 4)
    }

    pub fn gender(self) -> (r: Gender)
        ensures
            r == self.gender_of(),
    {
        let a = self.0;
        assert(a >> 4 == a / 16) by (bit_vector);
        if self.0 >> 4 < 8 {
            Gender::Female
        } else {
            Gender::Male
        }
    }
}

#[derive(Clone, Copy, Debug, PartialEq, Eq, Structural)]
pub struct Filter {
    pub shiny: bool,
    pub gender: Gender,
    pub attack: Option<u8>,
}

impl Default for Filter {
    fn default() -> (r: Self)
        ensures
            r == Filter::default_spec(),
    {
        Filter { shiny: true, gender: Gender::Any, attack: None }
    }
}

impl Filter {
    /// Shiny on, any gender, any shiny-valid Attack DV.
    pub open spec fn default_spec() -> Filter {
        Filter { shiny: true, gender: Gender::Any, attack: None }
    }

    /// The filter that accepts `dvs`: shininess when asked for, the gender when
    /// one is chosen, and the chosen Attack DV, or any shiny-valid one.
    pub open spec fn accepts(self, dvs: Dvs) -> bool {
        &&& !self.shiny || dvs.is_shiny()
        &&& self.gender == Gender::Any || self.gender == dvs.gender_of()
        &&& match self.attack {
            None => is_shiny_attack(dvs.attack()),
            Some(a) => a == dvs.attack(),
        }
    }

    pub fn matches(self, dvs: Dvs) -> (r: bool)
        ensures
            r == self.accepts(dvs),
    {
        let a = dvs.0;
        assert(a >> 4 == a / 16) by (bit_vector);
        let shiny_ok = !self.shiny || dvs.shiny();
        let gender_ok = self.gender == Gender::Any || self.gender == dvs.gender();
        let attack_ok = match self.attack {
            None => shiny_attack(dvs.0 >> 4),
            Some(a) => a == dvs.0 >> 4,
        };
        shiny_ok && gender_ok && attack_ok
    }

    /// The chosen Attack DV is a DV (below 16), shiny-valid when shininess is
    /// asked for, and agrees with the gender: females have Attack 0 to 7, males 8
    /// to 15. Any Attack is always possible.
    pub open spec fn is_possible(self) -> bool {
        match self.attack {
            Some(a) => {
                &&& a < 16
                &&& !self.shiny || is_shiny_attack(a as int)
                &&& !(self.gender == Gender::Female && a >= 8)
                &&& !(self.gender == Gender::Male && a < 8)
            },
            None => true,
        }
    }

    pub fn possible(self) -> (r: bool)
        ensures
            r == self.is_possible(),
    {
        match self.attack {
            Some(a) => a < 16 && (!self.shiny || shiny_attack(a)) && !(self.gender
                == Gender::Female && a >= 8) && !(self.gender == Gender::Male && a < 8),
            None => true,
        }
    }

    /// The filter of preset `index`: 1 male shiny, 2 female shiny, 3 shiny with
    /// Attack 15, anything else any shiny.
    pub open spec fn preset_spec(index: u8) -> Filter {
        Filter {
            shiny: true,
            gender: if index == 1 {
                Gender::Male
            } else if index == 2 {
                Gender::Female
            } else {
                Gender::Any
            },
            attack: if index == 3 {
                Some(15u8)
            } else {
                None
            },
        }
    }

    pub fn preset(index: u8) -> (r: Self)
        ensures
            r == Self::preset_spec(index),
    {
        match index {
            1 => Filter { gender: Gender::Male, ..Self::default() },
            2 => Filter { gender: Gender::Female, ..Self::default() },
            3 => Filter { attack: Some(15), ..Self::default() },
            _ => Self::default(),
        }
    }
}


/// The increments of the DIV tracker, indexed by the low four bits of the index.
const DIV_INCREMENTS: [u8; 16] = [18, 18, 18, 19, 18, 18, 19, 18, 18, 19, 18, 18, 19, 18, 18, 19];

/// Indices at which the DIV tracker takes the other of its two increments.
pub open spec fn is_flipped_index(index: u16) -> bool {
    index == 8 || index == 9 || index == 0x562 || index == 0x563 || index == 0x22b5 || index
        == 0x22b6
}

/// What the DIV tracker adds to its value at `index`: 19 at every third index of
/// each block of sixteen (3, 6, 9, 12, 15), 18 elsewhere, and the other of the two
/// at the flipped indices.
pub open spec fn div_increment(index: u16) -> int {
    let low = index % 16;
    let base: int = if low == 3 || low == 6 || low == 9 || low == 12 || low == 15 {
        19
    } else {
        18
    };
    if is_flipped_index(index) {
        37 - base
    } else {
        base
    }
}

#[derive(Clone, Copy, Debug, PartialEq, Eq, Structural)]
pub struct Div {
    pub index: u16,
    pub value: u8,
}

impl Div {
    /// The index can still be incremented in a `u16`.
    pub open spec fn can_step(self) -> bool {
        self.index < 0xffff
    }

    /// The tracker one step on: the value grows by the increment (mod 256) and the
    /// index moves on within its 0x4000 entries.
    pub open spec fn stepped(self) -> Div {
        Div {
            index: ((self.index + 1) % 0x4000) as u16,
            value: ((self.value + div_increment(self.index)) % 256) as u8,
        }
    }

    pub fn next(&mut self)
        requires
            old(self).can_step(),
        ensures
            *final(self) == old(self).stepped(),
    {
        let index = self.index;
        assert(index & 15 == index % 16) by (bit_vector);
        let mut increment = DIV_INCREMENTS[(self.index & 15) as usize];
        if self.index == 8 || self.index == 9 || self.index == 0x562 || self.index == 0x563
            || self.index == 0x22b5 || self.index == 0x22b6 {
            increment = 37 - increment;
        }
        assert(increment == div_increment(index));
        self.value = self.value.wrapping_add(increment);
        let next_index: u16 = self.index + 1;
        assert(next_index & 0x3fff == next_index % 0x4000) by (bit_vector);
        self.index = next_index & 0x3fff;
    }
}

/// The Game Boy Random routine with its two DIV reads and incoming carry:
/// `t = add + adiv + carry`, the new add byte is `t mod 256`; with
/// `u = sdiv + (t > 255)` the new sub byte is `(sub - u) mod 256`, and the carry
/// out is the borrow `sub < u`. The state holds the add byte high, the sub byte low.
pub open spec fn random_spec(state: u16, adiv: u8, sdiv: u8, carry: bool) -> (u16, bool) {
    let t: int = state as int / 256 + adiv + (if carry { 1int } else { 0int });
    let u: int = sdiv as int + (if t > 255 { 1int } else { 0int });
    let sub: int = state as int % 256;
    (((t % 256) * 256 + (sub - u) % 256) as u16, sub < u)
}

/// Exact Random arithmetic when its two DIV reads and incoming carry are known.
/// Carry out is the SUB borrow, and is carried into the second DV-producing Random.
pub fn random(state: u16, adiv: u8, sdiv: u8, carry: bool) -> (r: (u16, bool))
    ensures
        r == random_spec(state, adiv, sdiv, carry),
{
    let high: u16 = state >> 8;
    assert(high == state / 256) by (bit_vector)
        requires
            high == state >> 8,
    ;
    let c: u16 = if carry { 1 } else { 0 };
    let sum: u16 = high + adiv as u16 + c;
    let subtrahend: u16 = sdiv as u16 + if sum > 255 { 1 } else { 0 };
    let sub: u16 = state & 255;
    assert(sub == state % 256) by (bit_vector)
        requires
            sub == state & 255,
    ;
    let low: u16 = sub.wrapping_sub(subtrahend) & 255;
    let out: u16 = ((sum & 255) << 8) | low;
    proof {
        let w = sub.wrapping_sub(subtrahend);
        assert(low == w % 256) by (bit_vector)
            requires
                low == w & 255,
        ;
        assert(w % 256 == (sub - subtrahend) % 256);
        assert(out == (sum % 256) * 256 + low) by (bit_vector)
            requires
                out == ((sum & 255) << 8) | low,
                low < 256,
        ;
    }
    (out, sub < subtrahend)
}


#[derive(Clone, Copy, Debug, PartialEq, Eq, Structural)]
pub struct Rng {
    pub state: u16,
    pub add: Div,
    pub sub: Div,
}

impl Rng {
    /// Both DIV trackers can take a step.
    pub open spec fn can_step(self) -> bool {
        self.add.can_step() && self.sub.can_step()
    }

    /// One VBlank advance: both trackers step, then Random runs on their new
    /// values with the carry cleared.
    #[verifier::opaque]
    pub open spec fn stepped(self) -> Rng {
        let add = self.add.stepped();
        let sub = self.sub.stepped();
        Rng { state: random_spec(self.state, add.value, sub.value, false).0, add, sub }
    }

    /// The generator `n` advances on.
    pub open spec fn advanced(self, n: nat) -> Rng
        decreases n,
    {
        if n == 0 {
            self
        } else {
            self.advanced((n - 1) as nat).stepped()
        }
    }

    pub fn next(&mut self)
        requires
            old(self).can_step(),
        ensures
            *final(self) == old(self).stepped(),
            final(self).can_step(),
    {
        proof {
            reveal(Rng::stepped);
        }
        self.add.next();
        self.sub.next();
        self.state = random(self.state, self.add.value, self.sub.value, false).0;
    }

    pub fn advance(&mut self, count: u32)
        requires
            count == 0 || old(self).can_step(),
        ensures
            *final(self) == old(self).advanced(count as nat),
            old(self).can_step() ==> final(self).can_step(),
    {
        let ghost start = *self;
        let mut i: u32 = 0;
        while i < count
            invariant
                i <= count,
                *self == start.advanced(i as nat),
                count == 0 || self.can_step(),
            decreases count - i,
        {
            self.next();
            i = i + 1;
        }
    }
}

/// Stepping commutes with advancing: `n` advances then one more is one advance
/// then `n` more.
pub proof fn lemma_advanced_stepped(r: Rng, n: nat)
    ensures
        r.advanced(n).stepped() == r.stepped().advanced(n),
    decreases n,
{
    if n > 0 {
        lemma_advanced_stepped(r, (n - 1) as nat);
    }
}

/// Advancing `a` then `b` times is advancing `a + b` times.
pub proof fn lemma_advanced_add(r: Rng, a: nat, b: nat)
    ensures
        r.advanced(a).advanced(b) == r.advanced(a + b),
    decreases b,
{
    if b > 0 {
        lemma_advanced_add(r, a, (b - 1) as nat);
    }
}


/// Empirical DIV transformation, fitted independently to each of the four reads.
/// The family is deliberately bounded; unmatched/ambiguous data cannot unlock search.
#[derive(Clone, Copy, Debug, PartialEq, Eq, Structural)]
pub struct Transform {
    pub slope: u8,
    pub offset: u8,
}

impl Transform {
    /// `div * slope + offset`, modulo 256.
    pub open spec fn applied(self, div: u8) -> u8 {
        ((div * self.slope + self.offset) % 256) as u8
    }

    fn apply(self, div: u8) -> (r: u8)
        ensures
            r == self.applied(div),
    {
        div.wrapping_mul(self.slope).wrapping_add(self.offset)
    }
}

/// The DIV value that read `i` of a gift is fitted against: the add tracker for
/// reads 0 and 2, the sub tracker for reads 1 and 3.
pub open spec fn read_base(before: Rng, i: int) -> u8 {
    if i % 2 == 0 {
        before.add.value
    } else {
        before.sub.value
    }
}

/// The DVs that two Random calls produce from `state` with the four DIV reads:
/// the first call starts with the carry clear and hands its borrow to the second.
pub open spec fn dvs_from_reads(state: u16, r0: u8, r1: u8, r2: u8, r3: u8) -> Dvs {
    let (first, carry) = random_spec(state, r0, r1, false);
    let (second, _) = random_spec(first, r2, r3, carry);
    Dvs(first as u8, second as u8)
}

fn gift_dvs(state: u16, r0: u8, r1: u8, r2: u8, r3: u8) -> (r: Dvs)
    ensures
        r == dvs_from_reads(state, r0, r1, r2, r3),
{
    let (first, carry) = random(state, r0, r1, false);
    let (second, _) = random(first, r2, r3, carry);
    Dvs(first as u8, second as u8)
}

#[derive(Clone, Copy, Debug, PartialEq, Eq)]
pub struct Model {
    pub delay: u32,
    pub reads: [Transform; 4],
}

impl Model {
    /// Read `i` as this model predicts it from the generator before the gift.
    pub open spec fn predicted_read(self, before: Rng, i: int) -> u8 {
        self.reads[i].applied(read_base(before, i))
    }

    /// The DVs this model predicts from the generator before the gift.
    pub open spec fn predicted_dvs(self, before: Rng) -> Dvs {
        dvs_from_reads(
            before.state,
            self.predicted_read(before, 0),
            self.predicted_read(before, 1),
            self.predicted_read(before, 2),
            self.predicted_read(before, 3),
        )
    }

    /// The model explains `sample`: same delay, a valid sample, each read
    /// predicted exactly, and so the DVs too.
    pub open spec fn explains(self, sample: Sample) -> bool {
        &&& self.delay == sample.delay
        &&& sample.is_valid()
        &&& forall|i: int| 0 <= i < 4 ==> self.predicted_read(sample.before, i) == sample.reads[i]
        &&& self.predicted_dvs(sample.before) == sample.dvs
    }

    pub fn matches_sample(self, sample: Sample) -> (r: bool)
        requires
            self.delay != sample.delay || sample.checkable(),
        ensures
            r == self.explains(sample),
    {
        if self.delay != sample.delay || !sample.valid() {
            return false;
        }
        let b = sample.before;
        let ok0 = self.reads[0].apply(b.add.value) == sample.reads[0];
        let ok1 = self.reads[1].apply(b.sub.value) == sample.reads[1];
        let ok2 = self.reads[2].apply(b.add.value) == sample.reads[2];
        let ok3 = self.reads[3].apply(b.sub.value) == sample.reads[3];
        let reads_ok = ok0 && ok1 && ok2 && ok3;
        proof {
            if reads_ok {
                assert forall|i: int| 0 <= i < 4 implies self.predicted_read(sample.before, i)
                    == sample.reads[i] by {
                    if i == 0 {
                    } else if i == 1 {
                    } else if i == 2 {
                    } else {
                    }
                }
            } else {
                if !ok0 {
                    assert(self.predicted_read(sample.before, 0) != sample.reads[0]);
                } else if !ok1 {
                    assert(self.predicted_read(sample.before, 1) != sample.reads[1]);
                } else if !ok2 {
                    assert(self.predicted_read(sample.before, 2) != sample.reads[2]);
                } else {
                    assert(self.predicted_read(sample.before, 3) != sample.reads[3]);
                }
            }
        }
        reads_ok && self.dvs(sample.before) == sample.dvs
    }

    pub fn dvs(self, before: Rng) -> (r: Dvs)
        ensures
            r == self.predicted_dvs(before),
    {
        let r0 = self.reads[0].apply(before.add.value);
        let r1 = self.reads[1].apply(before.sub.value);
        let r2 = self.reads[2].apply(before.add.value);
        let r3 = self.reads[3].apply(before.sub.value);
        gift_dvs(before.state, r0, r1, r2, r3)
    }
}

#[derive(Clone, Copy, Debug)]
pub struct Sample {
    pub start: Rng,
    pub delay: u32,
    pub before: Rng,
    pub reads: [u8; 4],
    pub dvs: Dvs,
}

impl Sample {
    /// Checking the sample advances `start`, which needs its trackers able to step
    /// whenever a step is taken.
    pub open spec fn checkable(self) -> bool {
        self.start.can_step() || self.delay == 0 || self.delay > 512
    }

    /// At most 512 advances separate `start` from `before`, they do, and the DVs
    /// are what the four reads give from `before`.
    pub open spec fn is_valid(self) -> bool {
        &&& self.delay <= 512
        &&& self.start.advanced(self.delay as nat) == self.before
        &&& self.dvs == dvs_from_reads(
            self.before.state,
            self.reads[0],
            self.reads[1],
            self.reads[2],
            self.reads[3],
        )
    }

    pub fn valid(self) -> (r: bool)
        requires
            self.checkable(),
        ensures
            r == self.is_valid(),
    {
        if self.delay > 512 {
            return false;
        }
        let mut expected = self.start;
        if self.delay > 0 {
            expected.advance(self.delay);
        }
        let dvs = gift_dvs(
            self.before.state,
            self.reads[0],
            self.reads[1],
            self.reads[2],
            self.reads[3],
        );
        expected == self.before && self.dvs == dvs
    }
}


/// The transform of read `i` with slope `slope` that reproduces read `i` of
/// `first` exactly: its offset is that read minus `base * slope`, modulo 256.
pub open spec fn fitted_transform(first: Sample, i: int, slope: u8) -> Transform {
    Transform {
        slope,
        offset: ((first.reads[i] - read_base(first.before, i) * slope) % 256) as u8,
    }
}

/// Slope `slope`, fitted to `first`, predicts read `i` of `sample`.
pub open spec fn slope_agrees(first: Sample, sample: Sample, i: int, slope: u8) -> bool {
    fitted_transform(first, i, slope).applied(read_base(sample.before, i)) == sample.reads[i]
}

/// `mask` with the bit of each of the three slopes cleared where that slope,
/// fitted to `first`, does not predict read `i` of `sample`.
pub open spec fn refined_mask(mask: u8, first: Sample, sample: Sample, i: int) -> u8 {
    let m0 = if slope_agrees(first, sample, i, 0) { mask } else { mask & !(1u8 << 0u8) };
    let m1 = if slope_agrees(first, sample, i, 1) { m0 } else { m0 & !(1u8 << 1u8) };
    if slope_agrees(first, sample, i, 2) { m1 } else { m1 & !(1u8 << 2u8) }
}

/// Exactly one of the three candidate slopes is left in a mask.
pub open spec fn identified(mask: u8) -> bool {
    mask == 1 || mask == 2 || mask == 4
}

/// The slope that an identified mask leaves.
pub open spec fn slope_of(mask: u8) -> u8 {
    if mask == 1 {
        0
    } else if mask == 2 {
        1
    } else {
        2
    }
}

/// What a calibration holds: the first accepted sample, the starts of counted
/// claims (five slots, the first `held` of them filled, `next` the slot the next
/// counted start goes to), one slope mask per read, and the number of claims
/// counted towards confidence.
#[verifier::ext_equal]
pub struct CalibrationView {
    pub first: Option<Sample>,
    pub starts: Seq<Option<Rng>>,
    pub masks: Seq<u8>,
    pub samples: nat,
    pub held: nat,
    pub next: nat,
}

impl CalibrationView {
    /// Well-formed: five start slots, the first `held` filled and the rest empty,
    /// the next slot right after them until all five are filled (then any slot),
    /// four masks non-empty within the three slope bits (all three, and nothing
    /// held, before a first sample). The count is the public `samples` field and
    /// may hold any value.
    pub open spec fn wf(self) -> bool {
        &&& self.starts.len() == 5
        &&& self.masks.len() == 4
        &&& self.held <= 5
        &&& self.next < 5
        &&& self.held < 5 ==> self.next == self.held
        &&& forall|j: int| 0 <= j < 5 ==> (#[trigger] self.starts[j] is Some <==> j < self.held)
        &&& forall|i: int| 0 <= i < 4 ==> 1 <= #[trigger] self.masks[i] <= 7
        &&& self.first is None ==> forall|i: int| 0 <= i < 4 ==> self.masks[i] == 7
        &&& self.first is None ==> self.held == 0
    }

    /// The state of a calibration that holds nothing.
    pub open spec fn is_reset(self) -> bool {
        &&& self.first is None
        &&& self.samples == 0
        &&& self.held == 0
        &&& self.next == 0
        &&& forall|j: int| 0 <= j < 5 ==> self.starts[j] is None
        &&& forall|i: int| 0 <= i < 4 ==> self.masks[i] == 7
    }

    pub open spec fn all_identified(self) -> bool {
        forall|i: int| 0 <= i < 4 ==> identified(self.masks[i])
    }

    /// `start` is one of the held starts.
    pub open spec fn has_start(self, start: Rng) -> bool {
        exists|j: int| 0 <= j < 5 && self.starts[j] == Some(start)
    }

    /// The mask of read `i` once `sample` is taken in: refined against the first
    /// sample when there is one, unchanged otherwise.
    pub open spec fn mask_after(self, sample: Sample, i: int) -> u8 {
        match self.first {
            Some(f) => refined_mask(self.masks[i], f, sample, i),
            None => self.masks[i],
        }
    }

    /// Slope `slope` of read `i` fitted to the first sample.
    pub open spec fn fitted(self, i: int, slope: u8) -> Transform {
        fitted_transform(self.first.unwrap(), i, slope)
    }

    /// The identified model: all five samples counted and every read identified.
    pub open spec fn model(self) -> Option<Model> {
        if self.samples >= 5 && self.all_identified() && self.first is Some {
            Some(
                Model {
                    delay: self.first.unwrap().delay,
                    reads: [
                        self.fitted(0, slope_of(self.masks[0])),
                        self.fitted(1, slope_of(self.masks[1])),
                        self.fitted(2, slope_of(self.masks[2])),
                        self.fitted(3, slope_of(self.masks[3])),
                    ],
                },
            )
        } else {
            None
        }
    }
}

pub struct Calibration {
    first: Option<Sample>,
    starts: [Option<Rng>; 5],
    masks: [u8; 4],
    pub samples: usize,
    held: usize,
    next: usize,
}

impl View for Calibration {
    type V = CalibrationView;

    open spec fn view(&self) -> CalibrationView {
        self.contents()
    }
}

impl Default for Calibration {
    fn default() -> (r: Self)
        ensures
            r@.is_reset(),
            r@.wf(),
    {
        Calibration {
            first: None,
            starts: [None, None, None, None, None],
            masks: [7, 7, 7, 7],
            samples: 0,
            held: 0,
            next: 0,
        }
    }
}

impl Calibration {
    pub closed spec fn contents(&self) -> CalibrationView {
        CalibrationView {
            first: self.first,
            starts: self.starts@,
            masks: self.masks@,
            samples: self.samples as nat,
            held: self.held as nat,
            next: self.next as nat,
        }
    }

    fn reset(&mut self)
        ensures
            final(self)@.is_reset(),
            final(self)@.wf(),
    {
        *self = Self::default();
    }

    fn has_start_exec(&self, start: Rng) -> (r: bool)
        ensures
            r == self@.has_start(start),
    {
        let mut j: usize = 0;
        while j < 5
            invariant
                j <= 5,
                forall|k: int| 0 <= k < j ==> self.starts[k] != Some(start),
            decreases 5 - j,
        {
            match self.starts[j] {
                Some(s) => {
                    if s == start {
                        return true;
                    }
                },
                None => {},
            }
            j = j + 1;
        }
        false
    }

    /// The mask of read `i` with the slopes that disagree with `sample` cleared.
    fn refine(&self, i: usize, sample: &Sample) -> (r: u8)
        requires
            i < 4,
            self@.masks[i as int] <= 7,
            self@.first is Some,
        ensures
            r == self@.mask_after(*sample, i as int),
            r <= 7,
    {
        let base = if i & 1 == 0 {
            sample.before.add.value
        } else {
            sample.before.sub.value
        };
        proof {
            assert(i & 1 == 0 <==> i % 2 == 0) by (bit_vector);
        }
        let read = sample.reads[i];
        let mut m = self.masks[i];
        if self.transform(i, 0).apply(base) != read {
            assert(m & !(1u8 << 0u8) <= m) by (bit_vector);
            m = m & !(1u8 << 0u8);
        }
        if self.transform(i, 1).apply(base) != read {
            assert(m & !(1u8 << 1u8) <= m) by (bit_vector);
            m = m & !(1u8 << 1u8);
        }
        if self.transform(i, 2).apply(base) != read {
            assert(m & !(1u8 << 2u8) <= m) by (bit_vector);
            m = m & !(1u8 << 2u8);
        }
        m
    }

    fn transform(&self, i: usize, slope: u8) -> (r: Transform)
        requires
            i < 4,
            self@.first is Some,
        ensures
            r == self@.fitted(i as int, slope),
    {
        let first = self.first.unwrap();
        let base = if i & 1 == 0 {
            first.before.add.value
        } else {
            first.before.sub.value
        };
        proof {
            assert(i & 1 == 0 <==> i % 2 == 0) by (bit_vector);
            let x: int = base * slope;
            let w = base.wrapping_mul(slope);
            assert(w == x % 256);
            let r: int = first.reads[i as int] as int;
            lemma_sub_mod_noop_right(r, x, 256);
        }
        Transform { slope, offset: first.reads[i].wrapping_sub(base.wrapping_mul(slope)) }
    }

    /// Three distinct claims identify a unique model; two further distinct claims
    /// are held-out validation. Repeated identical starts never increase confidence.
    /// The starts of counted claims are held in five slots; when all five are
    /// full and another claim is counted, it takes the slot of the oldest held
    /// start, so that start, if claimed again, counts again.
    pub fn add(&mut self, sample: Sample) -> (r: bool)
        requires
            old(self)@.wf(),
            sample.checkable(),
        ensures
            final(self)@.wf(),
            !sample.is_valid() ==> !r && final(self)@.is_reset(),
            sample.is_valid() && old(self)@.has_start(sample.start) ==> !r && *final(self) == *old(
                self,
            ),
            sample.is_valid() && !old(self)@.has_start(sample.start) ==> {
                let o = old(self)@;
                let f = final(self)@;
                if o.first matches Some(first) && first.delay != sample.delay {
                    !r && f.is_reset()
                } else if exists|i: int| 0 <= i < 4 && o.mask_after(sample, i) == 0 {
                    !r && f.is_reset()
                } else {
                    let counted = o.samples < 5;
                    let n: nat = if counted { o.samples + 1 } else { o.samples };
                    &&& r
                    &&& f.first == (if o.first is Some { o.first } else { Some(sample) })
                    &&& forall|i: int| 0 <= i < 4 ==> f.masks[i] == o.mask_after(sample, i)
                    &&& forall|j: int|
                        0 <= j < 5 ==> f.starts[j] == (if counted && j == o.next {
                            Some(sample.start)
                        } else {
                            o.starts[j]
                        })
                    &&& f.held == (if counted && o.held < 5 { o.held + 1 } else { o.held })
                    &&& f.next == (if counted { (o.next + 1) % 5 } else { o.next })
                    &&& f.samples == (if n >= 3 && !f.all_identified() { 2 } else { n })
                }
            },
            r ==> final(self)@.consistent_with(sample),
            forall|s: Sample|
                r && old(self)@.consistent_with(s) ==> final(self)@.consistent_with(s),
            r && old(self)@.samples < 5 ==> final(self)@.has_start(sample.start),
            forall|st: Rng|
                r && old(self)@.has_start(st) && !(old(self)@.samples < 5 && old(self)@.held == 5
                    && old(self)@.starts[old(self)@.next as int] == Some(st))
                    ==> final(self)@.has_start(st),
            r && old(self)@.model() is Some ==> final(self)@ == old(self)@,
            add_step(old(self)@, sample, final(self)@, r),
    {
        if !sample.valid() {
            self.reset();
            return false;
        }
        if self.has_start_exec(sample.start) {
            return false;
        }
        let ghost o = self@;
        match self.first {
            Some(first) => {
                if first.delay != sample.delay {
                    self.reset();
                    return false;
                }
                let m0 = self.refine(0, &sample);
                let m1 = self.refine(1, &sample);
                let m2 = self.refine(2, &sample);
                let m3 = self.refine(3, &sample);
                if m0 == 0 || m1 == 0 || m2 == 0 || m3 == 0 {
                    proof {
                        if m0 == 0 {
                            assert(o.mask_after(sample, 0) == 0);
                        } else if m1 == 0 {
                            assert(o.mask_after(sample, 1) == 0);
                        } else if m2 == 0 {
                            assert(o.mask_after(sample, 2) == 0);
                        } else {
                            assert(o.mask_after(sample, 3) == 0);
                        }
                    }
                    self.reset();
                    return false;
                }
                self.masks = [m0, m1, m2, m3];
            },
            None => {
                self.first = Some(sample);
            },
        }
        assert(forall|i: int| 0 <= i < 4 ==> self@.masks[i] == o.mask_after(sample, i));
        self.count(sample.start);
        proof {
            lemma_accepted_consistent(o, self@, sample);
            if o.model() is Some {
                lemma_identified_keeps_masks(o, sample);
                assert(self@.starts =~= o.starts);
                assert(self@.masks =~= o.masks);
                assert(self@ =~= o);
            }
            assert forall|st: Rng|
                o.has_start(st) && !(o.samples < 5 && o.held == 5 && o.starts[o.next as int] == Some(
                    st,
                )) implies self@.has_start(st) by {
                let j = choose|j: int| 0 <= j < 5 && o.starts[j] == Some(st);
                assert(self@.starts[j] == Some(st));
            }
            if o.samples < 5 {
                assert(self@.starts[o.next as int] == Some(sample.start));
            }
        }
        true
    }

    /// While fewer than five claims are counted, holds `start` in the next slot
    /// and counts it; then demotes the count to two while any read is still
    /// ambiguous.
    fn count(&mut self, start: Rng)
        requires
            old(self)@.held <= 5,
            old(self)@.next < 5,
            old(self)@.held < 5 ==> old(self)@.next == old(self)@.held,
            forall|j: int|
                0 <= j < 5 ==> (#[trigger] old(self)@.starts[j] is Some <==> j < old(self)@.held),
            old(self)@.first is Some,
            forall|i: int| 0 <= i < 4 ==> 1 <= #[trigger] old(self)@.masks[i] <= 7,
        ensures
            final(self)@.wf(),
            final(self)@.first == old(self)@.first,
            final(self)@.masks == old(self)@.masks,
            ({
                let o = old(self)@;
                let f = final(self)@;
                let counted = o.samples < 5;
                let n: nat = if counted { o.samples + 1 } else { o.samples };
                &&& forall|j: int|
                    0 <= j < 5 ==> f.starts[j] == (if counted && j == o.next {
                        Some(start)
                    } else {
                        o.starts[j]
                    })
                &&& f.held == (if counted && o.held < 5 { o.held + 1 } else { o.held })
                &&& f.next == (if counted { (o.next + 1) % 5 } else { o.next })
                &&& f.samples == (if n >= 3 && !o.all_identified() { 2 } else { n })
            }),
    {
        if self.samples < 5 {
            self.starts[self.next] = Some(start);
            if self.held < 5 {
                self.held += 1;
            }
            self.next = if self.next == 4 { 0 } else { self.next + 1 };
            self.samples += 1;
        }
        let ambiguous = !(self.masks[0] == 1 || self.masks[0] == 2 || self.masks[0] == 4) || !(
        self.masks[1] == 1 || self.masks[1] == 2 || self.masks[1] == 4) || !(self.masks[2] == 1
            || self.masks[2] == 2 || self.masks[2] == 4) || !(self.masks[3] == 1 || self.masks[3]
            == 2 || self.masks[3] == 4);
        proof {
            if !ambiguous {
                assert(self@.all_identified());
            } else if !identified(self.masks[0]) {
                assert(!identified(self@.masks[0]));
            } else if !identified(self.masks[1]) {
                assert(!identified(self@.masks[1]));
            } else if !identified(self.masks[2]) {
                assert(!identified(self@.masks[2]));
            } else {
                assert(!identified(self@.masks[3]));
            }
        }
        // Ambiguity after identification must not be counted as held-out validation.
        if self.samples >= 3 && ambiguous {
            self.samples = 2;
        }
    }

    /// The number of claims counted towards confidence.
    pub fn samples(&self) -> (r: usize)
        ensures
            r == self@.samples,
    {
        self.samples
    }

    pub fn model(&self) -> (r: Option<Model>)
        ensures
            r == self@.model(),
    {
        if self.samples < 5 || !(self.masks[0] == 1 || self.masks[0] == 2 || self.masks[0] == 4)
            || !(self.masks[1] == 1 || self.masks[1] == 2 || self.masks[1] == 4) || !(
        self.masks[2] == 1 || self.masks[2] == 2 || self.masks[2] == 4) || !(self.masks[3] == 1
            || self.masks[3] == 2 || self.masks[3] == 4) {
            return None;
        }
        let first = match self.first {
            Some(f) => f,
            None => return None,
        };
        let t0 = self.transform(0, single_slope(self.masks[0]));
        let t1 = self.transform(1, single_slope(self.masks[1]));
        let t2 = self.transform(2, single_slope(self.masks[2]));
        let t3 = self.transform(3, single_slope(self.masks[3]));
        let m = Model { delay: first.delay, reads: [t0, t1, t2, t3] };
        assert(m.reads =~= self@.model().unwrap().reads);
        Some(m)
    }
}

#[derive(Clone, Copy, Debug, PartialEq, Eq)]
pub struct Target {
    pub advance: u32,
    pub rng: Rng,
    pub dvs: Dvs,
}

/// What a search holds: the generator at the next candidate, the same generator
/// `model.delay` advances on, the next candidate's advance, the candidates left
/// and the model.
pub struct SearchView {
    pub cursor: Rng,
    pub delayed: Rng,
    pub advance: u32,
    pub remaining: u32,
    pub model: Model,
}

/// The number of candidates one search chunk looks at, at most.
pub open spec fn chunk_size() -> nat {
    256
}

pub open spec fn min3(a: int, b: int, c: int) -> int {
    if a <= b && a <= c {
        a
    } else if b <= c {
        b
    } else {
        c
    }
}

impl SearchView {
    /// The delayed generator stays `model.delay` advances ahead of the cursor,
    /// and both can step.
    pub open spec fn wf(self) -> bool {
        &&& self.cursor.can_step()
        &&& self.delayed.can_step()
        &&& self.delayed == self.cursor.advanced(self.model.delay as nat)
    }

    /// Candidate `j` from here: its advance, the generator when the claim starts,
    /// and the DVs the model predicts from the delayed generator.
    pub open spec fn candidate(self, j: nat) -> Target {
        Target {
            advance: (self.advance + j) as u32,
            rng: self.cursor.advanced(j),
            dvs: self.model.predicted_dvs(self.delayed.advanced(j)),
        }
    }

    /// Candidate `j` is at least `minimum` advances in and its DVs pass `filter`.
    pub open spec fn hit(self, j: nat, filter: Filter, minimum: u32) -> bool {
        &&& self.advance + j >= minimum
        &&& filter.accepts(self.candidate(j).dvs)
    }

    /// The candidates a chunk can return: no more than a chunk, no more than are
    /// left, and none whose advance would leave no successor in a `u32`.
    pub open spec fn limit(self) -> int {
        min3(chunk_size() as int, self.remaining as int, u32::MAX - self.advance)
    }

    /// The search once `n` candidates are consumed without running out of advances.
    pub open spec fn consumed(self, n: nat) -> SearchView {
        SearchView {
            cursor: self.cursor.advanced(n),
            delayed: self.delayed.advanced(n),
            advance: (self.advance + n) as u32,
            remaining: (self.remaining - n) as u32,
            model: self.model,
        }
    }

    /// The nearest hit among the first `n` candidates, if any.
    pub open spec fn first_hit(self, filter: Filter, minimum: u32, n: nat) -> Option<nat>
        decreases n,
    {
        if n == 0 {
            None
        } else {
            match self.first_hit(filter, minimum, (n - 1) as nat) {
                Some(k) => Some(k),
                None => if self.hit((n - 1) as nat, filter, minimum) {
                    Some((n - 1) as nat)
                } else {
                    None
                },
            }
        }
    }
}

pub struct Search {
    cursor: Rng,
    delayed: Rng,
    advance: u32,
    remaining: u32,
    model: Model,
}

impl View for Search {
    type V = SearchView;

    open spec fn view(&self) -> SearchView {
        self.contents()
    }
}

impl Search {
    pub closed spec fn contents(&self) -> SearchView {
        SearchView {
            cursor: self.cursor,
            delayed: self.delayed,
            advance: self.advance,
            remaining: self.remaining,
            model: self.model,
        }
    }

    pub fn new(start: Rng, advance: u32, model: Model) -> (r: Self)
        requires
            model.delay == 0 || start.can_step(),
        ensures
            start.can_step() ==> r@.wf(),
            r@.delayed == start.advanced(model.delay as nat),
            r@.cursor == start,
            r@.advance == advance,
            r@.remaining == 1_000_000,
            r@.model == model,
    {
        let mut delayed = start;
        delayed.advance(model.delay);
        Search { cursor: start, delayed, advance, remaining: 1_000_000, model }
    }

    /// Constant memory, at most 256 candidates per overlay frame, in ascending order.
    pub fn chunk(&mut self, filter: Filter, minimum: u32) -> (r: Option<Target>)
        requires
            old(self)@.wf(),
        ensures
            final(self)@.wf(),
            final(self)@.model == old(self)@.model,
            chunk_outcome(old(self)@, final(self)@, r, filter, minimum),
    {
        let ghost o = self@;
        let mut k: u32 = 0;
        while k < 256
            invariant
                o == old(self)@,
                o.wf(),
                k <= 256,
                k <= o.remaining,
                o.advance + k <= u32::MAX,
                self@.wf(),
                self@ == o.consumed(k as nat),
                o.first_hit(filter, minimum, k as nat) is None,
            decreases 256 - k,
        {
            if self.remaining == 0 {
                proof {
                    lemma_outcome_used_up(o, filter, minimum, k as nat);
                }
                return None;
            }
            proof {
                lemma_consumed_step(o, k as nat);
            }
            let target = match self.take_candidate() {
                Some(t) => t,
                None => {
                    proof {
                        lemma_outcome_overflow(o, self@, filter, minimum, k as nat);
                    }
                    return None;
                },
            };
            if target.advance >= minimum && filter.matches(target.dvs) {
                proof {
                    lemma_outcome_hit(o, self@, filter, minimum, k as nat);
                }
                return Some(target);
            }
            k = k + 1;
        }
        proof {
            lemma_outcome_used_up(o, filter, minimum, 256);
        }
        None
    }

    /// Produces the next candidate and steps past it; when its advance has no
    /// successor in a `u32`, the search is used up and nothing is produced.
    fn take_candidate(&mut self) -> (r: Option<Target>)
        requires
            old(self)@.wf(),
            old(self)@.remaining > 0,
        ensures
            final(self)@.wf(),
            ({
                let o = old(self)@;
                let f = final(self)@;
                if o.advance == u32::MAX {
                    &&& r is None
                    &&& f.cursor == o.cursor.stepped()
                    &&& f.delayed == o.delayed.stepped()
                    &&& f.remaining == 0
                    &&& f.advance == u32::MAX
                    &&& f.model == o.model
                } else {
                    r == Some(o.candidate(0)) && f == o.consumed(1)
                }
            }),
    {
        let target = Target {
            advance: self.advance,
            rng: self.cursor,
            dvs: self.model.dvs(self.delayed),
        };
        proof {
            lemma_advanced_stepped(self.cursor, self.model.delay as nat);
        }
        self.cursor.next();
        self.delayed.next();
        self.remaining -= 1;
        self.advance = match self.advance.checked_add(1) {
            Some(n) => n,
            None => {
                self.remaining = 0;
                return None;
            },
        };
        Some(target)
    }

    pub fn exhausted(&self) -> (r: bool)
        ensures
            r == (self@.remaining == 0),
    {
        self.remaining == 0
    }
}

#[derive(Clone, Copy, Debug, PartialEq, Eq, Structural)]
pub enum Verification {
    Success,
    MissingExtremeSpeed,
    Failed,
}

/// Dratini's species number.
pub open spec fn dratini() -> u8 {
    147
}

/// ExtremeSpeed's move number.
pub open spec fn extreme_speed() -> u8 {
    0xf5
}

/// The receipt check: a level-15 Dratini with the target DVs that pass the
/// filter succeeds when its fourth move is ExtremeSpeed, and misses only that
/// move otherwise; anything else fails.
pub open spec fn verify_spec(
    species: u8,
    level: u8,
    dvs: Dvs,
    move4: u8,
    target: Dvs,
    filter: Filter,
) -> Verification {
    if species != dratini() || level != 15 || dvs != target || !filter.accepts(dvs) {
        Verification::Failed
    } else if move4 != extreme_speed() {
        Verification::MissingExtremeSpeed
    } else {
        Verification::Success
    }
}

pub fn verify(species: u8, level: u8, dvs: Dvs, move4: u8, target: Dvs, filter: Filter) -> (r:
    Verification)
    ensures
        r == verify_spec(species, level, dvs, move4, target, filter),
{
    if species != 147 || level != 15 || dvs != target || !filter.matches(dvs) {
        return Verification::Failed;
    }
    if move4 != 0xf5 {
        Verification::MissingExtremeSpeed
    } else {
        Verification::Success
    }
}

/// Slope `k` is still a candidate in `mask`.
pub open spec fn has_slope(mask: u8, k: u8) -> bool {
    mask & (1u8 << k) != 0
}

impl CalibrationView {
    /// `sample` is valid, has the first sample's delay, and every slope still in
    /// a read's mask, fitted to the first sample, predicts that read of `sample`.
    pub open spec fn consistent_with(self, sample: Sample) -> bool {
        &&& self.first is Some
        &&& sample.is_valid()
        &&& sample.delay == self.first.unwrap().delay
        &&& forall|i: int, k: u8|
            0 <= i < 4 && k < 3 && #[trigger] has_slope(self.masks[i], k) ==> slope_agrees(
                self.first.unwrap(),
                sample,
                i,
                k,
            )
    }
}

/// A transform fitted to a sample reproduces that sample's read, whatever the slope.
pub proof fn lemma_fitted_reproduces(first: Sample, i: int, k: u8)
    ensures
        slope_agrees(first, first, i, k),
{
    let b: int = read_base(first.before, i) as int;
    let x: int = b * k;
    let r: int = first.reads[i] as int;
    lemma_add_mod_noop_right(x, r - x, 256);
    assert((x + (r - x)) % 256 == r);
}

/// Refining keeps only slopes that were there and agree with the sample.
proof fn lemma_refined_bits(m: u8, a0: bool, a1: bool, a2: bool, k: u8)
    requires
        k < 3,
    ensures
        ({
            let m0 = if a0 { m } else { m & !(1u8 << 0u8) };
            let m1 = if a1 { m0 } else { m0 & !(1u8 << 1u8) };
            let r = if a2 { m1 } else { m1 & !(1u8 << 2u8) };
            r & (1u8 << k) != 0 ==> m & (1u8 << k) != 0 && (k == 0 ==> a0) && (k == 1 ==> a1) && (
            k == 2 ==> a2)
        }),
{
    assert({
        let m0 = if a0 { m } else { m & !(1u8 << 0u8) };
        let m1 = if a1 { m0 } else { m0 & !(1u8 << 1u8) };
        let r = if a2 { m1 } else { m1 & !(1u8 << 2u8) };
        r & (1u8 << k) != 0 ==> m & (1u8 << k) != 0 && (k == 0 ==> a0) && (k == 1 ==> a1) && (k
            == 2 ==> a2)
    }) by (bit_vector)
        requires
            k < 3,
    ;
}

/// An accepted sample is consistent with the calibration it leaves, and every
/// sample consistent before stays consistent.
proof fn lemma_accepted_consistent(o: CalibrationView, f: CalibrationView, sample: Sample)
    requires
        o.wf(),
        sample.is_valid(),
        o.first matches Some(first) ==> first.delay == sample.delay,
        f.first == (if o.first is Some { o.first } else { Some(sample) }),
        forall|i: int| 0 <= i < 4 ==> f.masks[i] == o.mask_after(sample, i),
    ensures
        f.consistent_with(sample),
        forall|s: Sample| o.consistent_with(s) ==> f.consistent_with(s),
{
    match o.first {
        Some(first) => {
            assert forall|i: int, k: u8|
                0 <= i < 4 && k < 3 && #[trigger] has_slope(f.masks[i], k) implies slope_agrees(
                first,
                sample,
                i,
                k,
            ) && has_slope(o.masks[i], k) by {
                lemma_refined_bits(
                    o.masks[i],
                    slope_agrees(first, sample, i, 0),
                    slope_agrees(first, sample, i, 1),
                    slope_agrees(first, sample, i, 2),
                    k,
                );
            }
        },
        None => {
            assert forall|i: int, k: u8|
                0 <= i < 4 && k < 3 && #[trigger] has_slope(f.masks[i], k) implies slope_agrees(
                sample,
                sample,
                i,
                k,
            ) by {
                lemma_fitted_reproduces(sample, i, k);
            }
        },
    }
}

/// Refining an identified mask leaves it as it was or empties it.
proof fn lemma_identified_refined(m: u8, a0: bool, a1: bool, a2: bool)
    requires
        identified(m),
    ensures
        ({
            let m0 = if a0 { m } else { m & !(1u8 << 0u8) };
            let m1 = if a1 { m0 } else { m0 & !(1u8 << 1u8) };
            let r = if a2 { m1 } else { m1 & !(1u8 << 2u8) };
            r == 0 || r == m
        }),
{
    assert({
        let m0 = if a0 { m } else { m & !(1u8 << 0u8) };
        let m1 = if a1 { m0 } else { m0 & !(1u8 << 1u8) };
        let r = if a2 { m1 } else { m1 & !(1u8 << 2u8) };
        r == 0 || r == m
    }) by (bit_vector)
        requires
            m == 1 || m == 2 || m == 4,
    ;
}

/// Once every read is identified, a sample either empties a mask or changes none.
proof fn lemma_identified_keeps_masks(o: CalibrationView, sample: Sample)
    requires
        o.first is Some,
        o.all_identified(),
    ensures
        forall|i: int| 0 <= i < 4 ==> o.mask_after(sample, i) == 0 || o.mask_after(sample, i) == o.masks[i],
{
    let first = o.first.unwrap();
    assert forall|i: int| 0 <= i < 4 implies o.mask_after(sample, i) == 0 || o.mask_after(sample, i)
        == o.masks[i] by {
        lemma_identified_refined(
            o.masks[i],
            slope_agrees(first, sample, i, 0),
            slope_agrees(first, sample, i, 1),
            slope_agrees(first, sample, i, 2),
        );
    }
}

/// What one `add` call does, as far as a run of calls needs it: the result is
/// well-formed; an accepted claim is consistent with it, and so is every claim
/// consistent before; a refused claim leaves the calibration as it was, or
/// resets it.
pub open spec fn add_step(o: CalibrationView, s: Sample, f: CalibrationView, r: bool) -> bool {
    &&& f.wf()
    &&& r ==> f.consistent_with(s) && forall|s2: Sample| o.consistent_with(s2) ==> f.consistent_with(s2)
    &&& !r ==> f == o || f.is_reset()
}

proof fn lemma_run_consistent_upto(
    cs: Seq<CalibrationView>,
    ss: Seq<Sample>,
    rs: Seq<bool>,
    i: int,
    k: int,
)
    requires
        cs.len() == ss.len() + 1,
        rs.len() == ss.len(),
        forall|j: int| 0 <= j < ss.len() ==> #[trigger] add_step(cs[j], ss[j], cs[j + 1], rs[j]),
        0 <= i < ss.len(),
        rs[i],
        forall|j: int| i + 1 < j <= ss.len() ==> !(#[trigger] cs[j].is_reset()),
        i < k <= ss.len(),
    ensures
        cs[k].consistent_with(ss[i]),
    decreases k - i,
{
    if k > i + 1 {
        lemma_run_consistent_upto(cs, ss, rs, i, k - 1);
        let j = k - 1;
        assert(add_step(cs[j], ss[j], cs[j + 1], rs[j]));
        if !rs[k - 1] {
            assert(!cs[k].is_reset());
        }
    } else {
        assert(add_step(cs[i], ss[i], cs[i + 1], rs[i]));
    }
}

/// Over any run of `add` calls (`cs[j]` the calibration before call `j` with
/// claim `ss[j]` and result `rs[j]`), every claim accepted since the last reset is
/// consistent with the calibration at the end, and a model identified at the end
/// explains it.
pub proof fn lemma_run_consistent(cs: Seq<CalibrationView>, ss: Seq<Sample>, rs: Seq<bool>, i: int)
    requires
        cs.len() == ss.len() + 1,
        rs.len() == ss.len(),
        forall|j: int| 0 <= j < ss.len() ==> #[trigger] add_step(cs[j], ss[j], cs[j + 1], rs[j]),
        0 <= i < ss.len(),
        rs[i],
        forall|j: int| i + 1 < j <= ss.len() ==> !(#[trigger] cs[j].is_reset()),
    ensures
        cs.last().consistent_with(ss[i]),
        forall|m: Model| cs.last().model() == Some(m) ==> m.explains(ss[i]),
{
    lemma_run_consistent_upto(cs, ss, rs, i, ss.len() as int);
    let last = ss.len() - 1;
    assert(add_step(cs[last], ss[last], cs[last + 1], rs[last]));
    assert forall|m: Model| cs.last().model() == Some(m) implies m.explains(ss[i]) by {
        lemma_model_explains(cs.last(), m, ss[i]);
    }
}

/// A model that calibration identified explains every sample the calibration
/// is consistent with: the same delay, each read predicted, and so the DVs.
pub proof fn lemma_model_explains(c: CalibrationView, m: Model, sample: Sample)
    requires
        c.wf(),
        c.model() == Some(m),
        c.consistent_with(sample),
    ensures
        m.explains(sample),
{
    let first = c.first.unwrap();
    assert forall|i: int| 0 <= i < 4 implies m.predicted_read(sample.before, i)
        == sample.reads[i] by {
        let mask = c.masks[i];
        let k = slope_of(mask);
        assert(has_slope(mask, k)) by {
            assert(has_slope(1u8, 0u8)) by (bit_vector);
            assert(has_slope(2u8, 1u8)) by (bit_vector);
            assert(has_slope(4u8, 2u8)) by (bit_vector);
        }
        assert(slope_agrees(first, sample, i, k));
        assert(m.reads[i] == c.fitted(i, k));
    }
    assert(m.predicted_read(sample.before, 0) == sample.reads[0]);
    assert(m.predicted_read(sample.before, 1) == sample.reads[1]);
    assert(m.predicted_read(sample.before, 2) == sample.reads[2]);
    assert(m.predicted_read(sample.before, 3) == sample.reads[3]);
}

/// Why a claim cannot start: the gift was already received, the party cannot
/// take it (one to five Pokemon are needed before it), or the game is not
/// stopped at the elder's final text.
pub open spec fn preflight_spec(count: u8, received: bool, prompt: bool) -> Result<
    (),
    &'static str,
> {
    if received {
        Err("Dratini already received")
    } else if count == 0 || count > 5 {
        Err("Party must hold 1-5 Pokemon")
    } else if !prompt {
        Err("Stop at the elder's final text")
    } else {
        Ok(())
    }
}

/// Eligibility of a manual claim from the party count, the received flag and
/// whether the elder's final text is open.
pub fn preflight(count: u8, received: bool, prompt: bool) -> (r: Result<(), &'static str>)
    ensures
        r == preflight_spec(count, received, prompt),
{
    if received {
        return Err("Dratini already received");
    }
    if count == 0 || count > 5 {
        return Err("Party must hold 1-5 Pokemon");
    }
    if !prompt {
        return Err("Stop at the elder's final text");
    }
    Ok(())
}

#[derive(Clone, Copy, Debug, PartialEq, Eq, Structural)]
pub enum ClaimProgress {
    Waiting,
    Complete,
    Failed,
}

/// The overlay updates a claim may take.
pub const CLAIM_TIMEOUT: u32 = 7200;

/// The state of a claim after `elapsed` overlay updates, begun with `start_count`
/// Pokemon in the party: a counter reset or leaving the shrine fails it; exactly
/// one new party member with the received flag completes it; past the timeout it
/// fails; while the party holds the start count, or the new member without the
/// flag, it waits; any other party change fails it.
pub open spec fn claim_progress_spec(
    start_count: u8,
    count: u8,
    received: bool,
    in_shrine: bool,
    elapsed: u32,
    advancing: bool,
) -> ClaimProgress {
    if !advancing || !in_shrine {
        ClaimProgress::Failed
    } else if count == start_count + 1 && received {
        ClaimProgress::Complete
    } else if elapsed > CLAIM_TIMEOUT {
        ClaimProgress::Failed
    } else if (count == start_count && !received) || count == start_count + 1 {
        ClaimProgress::Waiting
    } else {
        ClaimProgress::Failed
    }
}

pub fn claim_progress(
    start_count: u8,
    count: u8,
    received: bool,
    in_shrine: bool,
    elapsed: u32,
    advancing: bool,
) -> (r: ClaimProgress)
    ensures
        r == claim_progress_spec(start_count, count, received, in_shrine, elapsed, advancing),
{
    if !advancing || !in_shrine {
        return ClaimProgress::Failed;
    }
    let grown = count as u16 == start_count as u16 + 1;
    if grown && received {
        return ClaimProgress::Complete;
    }
    if elapsed > CLAIM_TIMEOUT {
        return ClaimProgress::Failed;
    }
    if (count == start_count && !received) || grown {
        ClaimProgress::Waiting
    } else {
        ClaimProgress::Failed
    }
}

/// A claim completes only with exactly one new party member, the received flag,
/// the game still in the shrine and the advance counter not reset.
pub proof fn lemma_complete_needs_gift(
    start_count: u8,
    count: u8,
    received: bool,
    in_shrine: bool,
    elapsed: u32,
    advancing: bool,
)
    requires
        claim_progress_spec(start_count, count, received, in_shrine, elapsed, advancing)
            == ClaimProgress::Complete,
    ensures
        count == start_count + 1,
        received,
        in_shrine,
        advancing,
{
}

/// Leaving the shrine, a reset advance counter, or more than the timeout's
/// updates without completion stop a claim.
pub proof fn lemma_interruptions_fail(
    start_count: u8,
    count: u8,
    received: bool,
    in_shrine: bool,
    elapsed: u32,
    advancing: bool,
)
    requires
        !in_shrine || !advancing || (elapsed > CLAIM_TIMEOUT && !(count == start_count + 1
            && received)),
    ensures
        claim_progress_spec(start_count, count, received, in_shrine, elapsed, advancing)
            == ClaimProgress::Failed,
{
}

/// With the Attack DV left at Any, a filter accepts only the eight shiny-valid
/// Attack DVs, whether shininess is asked for or not.
pub proof fn lemma_any_attack_is_shiny_valid(f: Filter, d: Dvs)
    requires
        f.attack is None,
        f.accepts(d),
    ensures
        is_shiny_attack(d.attack()),
{
}

/// What one chunk does to a search `o`, leaving `f` and returning `r`: with a hit
/// among the candidates it may look at, it returns the nearest and consumes up to
/// it; otherwise it returns nothing and consumes a chunk, what is left, or up to
/// the last advance a `u32` holds, which uses the search up.
#[verifier::opaque]
pub open spec fn chunk_outcome(
    o: SearchView,
    f: SearchView,
    r: Option<Target>,
    filter: Filter,
    minimum: u32,
) -> bool {
    match o.first_hit(filter, minimum, o.limit() as nat) {
        Some(n) => r == Some(o.candidate(n)) && f == o.consumed(n + 1),
        None => {
            let taken = min3(chunk_size() as int, o.remaining as int, u32::MAX - o.advance + 1);
            &&& r is None
            &&& f.model == o.model
            &&& f.cursor == o.cursor.advanced(taken as nat)
            &&& f.delayed == o.delayed.advanced(taken as nat)
            &&& if u32::MAX - o.advance < min3(
                chunk_size() as int,
                o.remaining as int,
                u32::MAX as int + 1,
            ) {
                f.remaining == 0 && f.advance == u32::MAX
            } else {
                f.remaining == o.remaining - taken && f.advance == o.advance + taken
            }
        },
    }
}

proof fn lemma_outcome_used_up(o: SearchView, filter: Filter, minimum: u32, k: nat)
    requires
        k <= 256,
        k <= o.remaining,
        k == o.remaining || k == 256,
        o.advance + k <= u32::MAX,
        o.first_hit(filter, minimum, k) is None,
    ensures
        chunk_outcome(o, o.consumed(k), None, filter, minimum),
{
    reveal(chunk_outcome);
    lemma_first_hit_none_prefix(o, filter, minimum, k, o.limit() as nat);
}

proof fn lemma_outcome_overflow(o: SearchView, f: SearchView, filter: Filter, minimum: u32, k: nat)
    requires
        k < 256,
        k < o.remaining,
        o.advance + k == u32::MAX,
        o.first_hit(filter, minimum, k) is None,
        f.cursor == o.cursor.advanced(k + 1),
        f.delayed == o.delayed.advanced(k + 1),
        f.remaining == 0,
        f.advance == u32::MAX,
        f.model == o.model,
    ensures
        chunk_outcome(o, f, None, filter, minimum),
{
    reveal(chunk_outcome);
}

proof fn lemma_outcome_hit(o: SearchView, f: SearchView, filter: Filter, minimum: u32, k: nat)
    requires
        k < 256,
        k < o.remaining,
        o.advance + k < u32::MAX,
        o.first_hit(filter, minimum, k) is None,
        o.hit(k, filter, minimum),
    ensures
        chunk_outcome(o, o.consumed(k + 1), Some(o.candidate(k)), filter, minimum),
{
    reveal(chunk_outcome);
    lemma_first_hit_found(o, filter, minimum, k, o.limit() as nat);
}

/// Consuming `k` candidates then one more is consuming `k + 1`, and the next
/// candidate after `k` is candidate `k`.
proof fn lemma_consumed_step(o: SearchView, k: nat)
    requires
        k < o.remaining,
        o.advance + k < u32::MAX + 1,
    ensures
        o.consumed(k).consumed(1) == o.consumed(k + 1),
        o.consumed(k).candidate(0) == o.candidate(k),
        o.consumed(k).cursor.stepped() == o.cursor.advanced(k + 1),
        o.consumed(k).delayed.stepped() == o.delayed.advanced(k + 1),
{
    lemma_advanced_add(o.cursor, k, 1);
    lemma_advanced_add(o.delayed, k, 1);
    assert(o.consumed(k).candidate(0).dvs == o.candidate(k).dvs);
}

/// No hit among the first `n` candidates means none among fewer.
proof fn lemma_first_hit_none_prefix(s: SearchView, filter: Filter, minimum: u32, n: nat, k: nat)
    requires
        s.first_hit(filter, minimum, n) is None,
        k <= n,
    ensures
        s.first_hit(filter, minimum, k) is None,
    decreases n - k,
{
    if k < n {
        lemma_first_hit_none_prefix(s, filter, minimum, (n - 1) as nat, k);
    }
}

/// The first hit is the hit after a run without one, however far one looks.
proof fn lemma_first_hit_found(s: SearchView, filter: Filter, minimum: u32, k: nat, n: nat)
    requires
        s.first_hit(filter, minimum, k) is None,
        s.hit(k, filter, minimum),
        k < n,
    ensures
        s.first_hit(filter, minimum, n) == Some(k),
    decreases n - k,
{
    if n > k + 1 {
        lemma_first_hit_found(s, filter, minimum, k, (n - 1) as nat);
    }
}

/// Exactly eight DV pairs are shiny: Defense, Speed and Special 10 with one of
/// the eight shiny-valid Attack DVs.
pub proof fn lemma_eight_shiny_spreads(d: Dvs)
    ensures
        d.is_shiny() <==> d.1 == 0xaa && (d.0 == 0x2a || d.0 == 0x3a || d.0 == 0x6a || d.0 == 0x7a
            || d.0 == 0xaa || d.0 == 0xba || d.0 == 0xea || d.0 == 0xfa),
{
}

/// A filter is possible exactly when some DVs pass it: an impossible one (an
/// Attack DV that is no DV, not shiny-valid while shininess is asked for, or
/// against the gender) accepts nothing.
pub proof fn lemma_possible_iff_some_accepted(f: Filter)
    ensures
        f.is_possible() <==> exists|d: Dvs| f.accepts(d),
{
    if f.is_possible() {
        let w = match f.attack {
            Some(a) => Dvs((a * 16 + 10) as u8, 0xaa),
            None => if f.gender == Gender::Male {
                Dvs(0xaa, 0xaa)
            } else {
                Dvs(0x2a, 0xaa)
            },
        };
        assert(f.accepts(w));
    }
    assert forall|d: Dvs| f.accepts(d) implies f.is_possible() by {
        assert(d.attack() < 16);
    }
}

/// The search predicts each candidate from the generator `model.delay`
/// advances after the candidate's start.
pub proof fn lemma_candidate_delay(s: SearchView, j: nat)
    requires
        s.wf(),
    ensures
        s.candidate(j).rng == s.cursor.advanced(j),
        s.candidate(j).dvs == s.model.predicted_dvs(s.cursor.advanced((s.model.delay + j) as nat)),
{
    lemma_advanced_add(s.cursor, s.model.delay as nat, j);
}

/// Consuming candidates shifts the rest down without skipping or repeating any:
/// candidate `j` after consuming `n` is candidate `n + j` before.
pub proof fn lemma_consumed_candidate(s: SearchView, n: nat, j: nat)
    requires
        n <= s.remaining,
        s.advance + n <= u32::MAX,
    ensures
        s.consumed(n).candidate(j) == s.candidate(n + j),
{
    lemma_advanced_add(s.cursor, n, j);
    lemma_advanced_add(s.delayed, n, j);
}

/// A chunk that finds nothing and leaves candidates skips none: it looked at
/// every candidate it consumed, and the next chunk starts with the candidate
/// right after them.
pub proof fn lemma_chunk_no_skip(o: SearchView, f: SearchView, filter: Filter, minimum: u32)
    requires
        chunk_outcome(o, f, None, filter, minimum),
        f.remaining > 0,
    ensures
        ({
            let taken = min3(chunk_size() as int, o.remaining as int, u32::MAX - o.advance + 1);
            &&& taken == o.limit()
            &&& o.first_hit(filter, minimum, taken as nat) is None
            &&& forall|j: nat| #[trigger] f.candidate(j) == o.candidate((taken + j) as nat)
        }),
{
    reveal(chunk_outcome);
    let taken = min3(chunk_size() as int, o.remaining as int, u32::MAX - o.advance + 1);
    assert(f == o.consumed(taken as nat));
    assert forall|j: nat| #[trigger] f.candidate(j) == o.candidate((taken + j) as nat) by {
        lemma_consumed_candidate(o, taken as nat, j);
    }
}

impl SearchView {
    /// Candidate `j` is a hit that a chunk can return: its advance has a successor.
    pub open spec fn returnable_hit(self, j: nat, filter: Filter, minimum: u32) -> bool {
        self.hit(j, filter, minimum) && self.advance + j < u32::MAX
    }

    /// The returnable hits among the first `n` candidates, nearest first.
    pub open spec fn hits(self, filter: Filter, minimum: u32, n: nat) -> Seq<Target>
        decreases n,
    {
        if n == 0 {
            Seq::empty()
        } else {
            let before = self.hits(filter, minimum, (n - 1) as nat);
            if self.returnable_hit((n - 1) as nat, filter, minimum) {
                before.push(self.candidate((n - 1) as nat))
            } else {
                before
            }
        }
    }
}

/// The targets a run of chunk calls returned, in order.
pub open spec fn found(results: Seq<Option<Target>>) -> Seq<Target>
    decreases results.len(),
{
    if results.len() == 0 {
        Seq::empty()
    } else {
        let before = found(results.drop_last());
        match results.last() {
            Some(t) => before.push(t),
            None => before,
        }
    }
}

/// The number of chunk calls in a run that returned nothing.
pub open spec fn misses(results: Seq<Option<Target>>) -> nat
    decreases results.len(),
{
    if results.len() == 0 {
        0
    } else {
        misses(results.drop_last()) + if results.last() is None {
            1nat
        } else {
            0nat
        }
    }
}

/// `s` is search `s0` after `n` candidates: both generators `n` advances on, and
/// either `n` advances and `n` fewer left, or, once the candidate at the last
/// `u32` advance was consumed, nothing left at that advance.
pub open spec fn reached(s0: SearchView, s: SearchView, n: nat) -> bool {
    &&& s.model == s0.model
    &&& s.cursor == s0.cursor.advanced(n)
    &&& s.delayed == s0.delayed.advanced(n)
    &&& n <= s0.remaining
    &&& if s0.advance + n <= u32::MAX {
        s.advance == s0.advance + n && s.remaining == s0.remaining - n
    } else {
        s.advance == u32::MAX && s.remaining == 0 && s0.advance + n == u32::MAX as int + 1
    }
}

proof fn lemma_first_hit_some(s: SearchView, filter: Filter, minimum: u32, n: nat, k: nat)
    requires
        s.first_hit(filter, minimum, n) == Some(k),
    ensures
        k < n,
        s.hit(k, filter, minimum),
        forall|j: nat| j < k ==> !s.hit(j, filter, minimum),
    decreases n,
{
    if s.first_hit(filter, minimum, (n - 1) as nat) == Some(k) {
        lemma_first_hit_some(s, filter, minimum, (n - 1) as nat, k);
    } else {
        lemma_first_hit_none_all(s, filter, minimum, (n - 1) as nat);
    }
}

proof fn lemma_first_hit_none_all(s: SearchView, filter: Filter, minimum: u32, n: nat)
    requires
        s.first_hit(filter, minimum, n) is None,
    ensures
        forall|j: nat| j < n ==> !s.hit(j, filter, minimum),
    decreases n,
{
    if n > 0 {
        lemma_first_hit_none_all(s, filter, minimum, (n - 1) as nat);
    }
}

proof fn lemma_hits_unchanged(s: SearchView, filter: Filter, minimum: u32, a: nat, b: nat)
    requires
        a <= b,
        forall|j: nat| a <= j < b ==> !s.returnable_hit(j, filter, minimum),
    ensures
        s.hits(filter, minimum, b) == s.hits(filter, minimum, a),
    decreases b - a,
{
    if b > a {
        lemma_hits_unchanged(s, filter, minimum, a, (b - 1) as nat);
    }
}

/// A candidate of `s0` after `n` consumed is a hit exactly when candidate `n + j`
/// of `s0` is.
proof fn lemma_consumed_hit(s0: SearchView, n: nat, j: nat, filter: Filter, minimum: u32)
    requires
        n <= s0.remaining,
        s0.advance + n <= u32::MAX,
    ensures
        s0.consumed(n).candidate(j) == s0.candidate(n + j),
        s0.consumed(n).hit(j, filter, minimum) == s0.hit(n + j, filter, minimum),
{
    lemma_consumed_candidate(s0, n, j);
}

/// One chunk call keeps a run's bookkeeping: the state is still `s0` after some
/// number of candidates, no fewer than before, and what it returned is the next
/// returnable hit.
proof fn lemma_chunk_step(
    s0: SearchView,
    s: SearchView,
    n: nat,
    s2: SearchView,
    r: Option<Target>,
    filter: Filter,
    minimum: u32,
) -> (n2: nat)
    requires
        reached(s0, s, n),
        chunk_outcome(s, s2, r, filter, minimum),
    ensures
        n <= n2,
        reached(s0, s2, n2),
        s0.hits(filter, minimum, n2) == (match r {
            Some(t) => s0.hits(filter, minimum, n).push(t),
            None => s0.hits(filter, minimum, n),
        }),
        r is Some ==> n < n2,
        r is None && s2.remaining > 0 ==> n2 == n + chunk_size(),
{
    reveal(chunk_outcome);
    if s0.advance + n > u32::MAX {
        assert(s.limit() == 0);
        assert(s2.cursor == s.cursor.advanced(0));
        return n;
    }
    assert(s == s0.consumed(n));
    match s.first_hit(filter, minimum, s.limit() as nat) {
        Some(m) => {
            lemma_first_hit_some(s, filter, minimum, s.limit() as nat, m);
            lemma_advanced_add(s0.cursor, n, m + 1);
            lemma_advanced_add(s0.delayed, n, m + 1);
            lemma_consumed_hit(s0, n, m, filter, minimum);
            assert forall|j: nat| n <= j < n + m implies !s0.returnable_hit(j, filter, minimum) by {
                lemma_consumed_hit(s0, n, (j - n) as nat, filter, minimum);
            }
            lemma_hits_unchanged(s0, filter, minimum, n, n + m);
            n + m + 1
        },
        None => {
            lemma_first_hit_none_all(s, filter, minimum, s.limit() as nat);
            let taken = min3(chunk_size() as int, s.remaining as int, u32::MAX - s.advance + 1);
            lemma_advanced_add(s0.cursor, n, taken as nat);
            lemma_advanced_add(s0.delayed, n, taken as nat);
            assert forall|j: nat| n <= j < n + taken implies !s0.returnable_hit(
                j,
                filter,
                minimum,
            ) by {
                lemma_consumed_hit(s0, n, (j - n) as nat, filter, minimum);
            }
            lemma_hits_unchanged(s0, filter, minimum, n, (n + taken) as nat);
            (n + taken) as nat
        },
    }
}

proof fn lemma_chunk_run_upto(
    ss: Seq<SearchView>,
    rs: Seq<Option<Target>>,
    filter: Filter,
    minimum: u32,
    k: nat,
) -> (n: nat)
    requires
        ss.len() == rs.len() + 1,
        forall|j: int|
            0 <= j < rs.len() ==> #[trigger] chunk_outcome(ss[j], ss[j + 1], rs[j], filter, minimum),
        k <= rs.len(),
    ensures
        reached(ss[0], ss[k as int], n),
        found(rs.subrange(0, k as int)) == ss[0].hits(filter, minimum, n),
        ss[k as int].remaining > 0 ==> n >= chunk_size() * misses(rs.subrange(0, k as int)),
    decreases k,
{
    if k == 0 {
        assert(ss[0].cursor.advanced(0) == ss[0].cursor);
        assert(found(rs.subrange(0, 0)) =~= Seq::<Target>::empty());
        0
    } else {
        let n = lemma_chunk_run_upto(ss, rs, filter, minimum, (k - 1) as nat);
        let j = k - 1;
        assert(chunk_outcome(ss[j], ss[j + 1], rs[j], filter, minimum));
        let n2 = lemma_chunk_step(ss[0], ss[j], n, ss[j + 1], rs[j], filter, minimum);
        assert(rs.subrange(0, k as int).drop_last() =~= rs.subrange(0, j));
        assert(rs.subrange(0, k as int).last() == rs[j]);
        n2
    }
}

/// Over any run of chunk calls with one filter and minimum (`ss[j]` the search
/// before call `j`, `rs[j]` its result), the search at the end is the first one
/// `n` candidates on: both generators `n` advances past where they started, the
/// advance `n` further (or, once the last `u32` advance was reached, stopped
/// there with nothing left). The targets returned are, in order, exactly the
/// returnable hits among those `n` candidates, so each is the nearest hit after
/// the one before and no hit at a chunk's edge is skipped. While candidates are
/// left, each call that returned nothing looked at a whole chunk.
pub proof fn lemma_chunk_run(
    ss: Seq<SearchView>,
    rs: Seq<Option<Target>>,
    filter: Filter,
    minimum: u32,
) -> (n: nat)
    requires
        ss.len() == rs.len() + 1,
        forall|j: int|
            0 <= j < rs.len() ==> #[trigger] chunk_outcome(ss[j], ss[j + 1], rs[j], filter, minimum),
    ensures
        reached(ss[0], ss.last(), n),
        ss.last().cursor == ss[0].cursor.advanced(n),
        ss.last().delayed == ss[0].delayed.advanced(n),
        found(rs) == ss[0].hits(filter, minimum, n),
        ss.last().remaining > 0 ==> n >= chunk_size() * misses(rs),
{
    let n = lemma_chunk_run_upto(ss, rs, filter, minimum, rs.len());
    assert(rs.subrange(0, rs.len() as int) =~= rs);
    n
}

/// A search made by `Search::new(start, a0, model)` and then asked for chunks
/// with one filter and minimum, `ss` and `rs` as in `lemma_chunk_run`, has looked
/// at the `n` candidates from `a0` on: its generators stand `n` and
/// `model.delay + n` advances past `start`, and it counts as exhausted exactly
/// when it looked at a million candidates or at the one at the last `u32`
/// advance. Every target returned has an advance at least `a0` and `minimum`,
/// DVs that pass the filter, the generator `start` after `advance - a0` steps, and
/// the DVs the model predicts `model.delay` steps later. The targets come in
/// strictly ascending order, every candidate looked at that the filter and
/// minimum accept (and that is not the last `u32` advance) is among them, and
/// while the search is not exhausted each call that returned nothing looked at a
/// whole chunk.
pub proof fn lemma_search_run(
    start: Rng,
    a0: u32,
    model: Model,
    ss: Seq<SearchView>,
    rs: Seq<Option<Target>>,
    filter: Filter,
    minimum: u32,
) -> (n: nat)
    requires
        start.can_step(),
        ss.len() == rs.len() + 1,
        ss[0] == (SearchView {
            cursor: start,
            delayed: start.advanced(model.delay as nat),
            advance: a0,
            remaining: 1_000_000,
            model,
        }),
        forall|j: int|
            0 <= j < rs.len() ==> #[trigger] chunk_outcome(ss[j], ss[j + 1], rs[j], filter, minimum),
    ensures
        n <= 1_000_000,
        ss.last().cursor == start.advanced(n),
        ss.last().delayed == start.advanced((model.delay + n) as nat),
        ss.last().model == model,
        ss.last().remaining == 0 <==> (n == 1_000_000 || a0 + n == u32::MAX as int + 1),
        ss.last().remaining > 0 ==> ss.last().advance == a0 + n,
        ss.last().remaining > 0 ==> n >= chunk_size() * misses(rs),
        forall|i: int|
            0 <= i < found(rs).len() ==> {
                let t = #[trigger] found(rs)[i];
                let k = (t.advance - a0) as nat;
                &&& a0 <= t.advance < a0 + n
                &&& t.advance >= minimum
                &&& filter.accepts(t.dvs)
                &&& t.rng == start.advanced(k)
                &&& t.dvs == model.predicted_dvs(start.advanced((model.delay + k) as nat))
            },
        forall|i1: int, i2: int|
            0 <= i1 < i2 < found(rs).len() ==> #[trigger] found(rs)[i1].advance < #[trigger] found(
                rs,
            )[i2].advance,
        forall|k: nat|
            k < n && a0 + k < u32::MAX && a0 + k >= minimum && filter.accepts(
                #[trigger] model.predicted_dvs(start.advanced((model.delay + k) as nat)),
            ) ==> found(rs).contains(
                Target {
                    advance: (a0 + k) as u32,
                    rng: start.advanced(k),
                    dvs: model.predicted_dvs(start.advanced((model.delay + k) as nat)),
                },
            ),
{
    let s0 = ss[0];
    let n = lemma_chunk_run(ss, rs, filter, minimum);
    lemma_advanced_add(start, model.delay as nat, n);
    lemma_hits_sound(s0, filter, minimum, n);
    lemma_hits_complete(s0, filter, minimum, n);
    lemma_hits_ascending(s0, filter, minimum, n);
    let h = found(rs);
    assert forall|i: int| 0 <= i < h.len() implies {
        let t = #[trigger] h[i];
        let k = (t.advance - a0) as nat;
        &&& a0 <= t.advance < a0 + n
        &&& t.advance >= minimum
        &&& filter.accepts(t.dvs)
        &&& t.rng == start.advanced(k)
        &&& t.dvs == model.predicted_dvs(start.advanced((model.delay + k) as nat))
    } by {
        let t = h[i];
        let k = (t.advance - a0) as nat;
        lemma_advanced_add(start, model.delay as nat, k);
    }
    assert forall|k: nat|
        k < n && a0 + k < u32::MAX && a0 + k >= minimum && filter.accepts(
            #[trigger] model.predicted_dvs(start.advanced((model.delay + k) as nat)),
        ) implies h.contains(
        Target {
            advance: (a0 + k) as u32,
            rng: start.advanced(k),
            dvs: model.predicted_dvs(start.advanced((model.delay + k) as nat)),
        },
    ) by {
        lemma_advanced_add(start, model.delay as nat, k);
        assert(s0.candidate(k) == Target {
            advance: (a0 + k) as u32,
            rng: start.advanced(k),
            dvs: model.predicted_dvs(start.advanced((model.delay + k) as nat)),
        });
        assert(s0.returnable_hit(k, filter, minimum));
    }
    n
}

/// Each target among the returnable hits of the first `n` candidates is the
/// candidate at its own advance, one of those `n`, and a returnable hit.
pub proof fn lemma_hits_sound(s: SearchView, filter: Filter, minimum: u32, n: nat)
    ensures
        forall|i: int|
            0 <= i < s.hits(filter, minimum, n).len() ==> {
                let t = #[trigger] s.hits(filter, minimum, n)[i];
                let j = (t.advance - s.advance) as nat;
                &&& s.advance <= t.advance
                &&& j < n
                &&& s.returnable_hit(j, filter, minimum)
                &&& t == s.candidate(j)
            },
    decreases n,
{
    if n > 0 {
        let m = (n - 1) as nat;
        lemma_hits_sound(s, filter, minimum, m);
        let h = s.hits(filter, minimum, m);
        let h2 = s.hits(filter, minimum, n);
        assert forall|i: int| 0 <= i < h2.len() implies {
            let t = #[trigger] h2[i];
            let j = (t.advance - s.advance) as nat;
            &&& s.advance <= t.advance
            &&& j < n
            &&& s.returnable_hit(j, filter, minimum)
            &&& t == s.candidate(j)
        } by {
            if i < h.len() {
                assert(h2[i] == h[i]);
            } else {
                assert(h2[i] == s.candidate(m));
            }
        }
    }
}

/// Every returnable hit among the first `n` candidates is among the targets.
pub proof fn lemma_hits_complete(s: SearchView, filter: Filter, minimum: u32, n: nat)
    ensures
        forall|j: nat|
            j < n && s.returnable_hit(j, filter, minimum) ==> s.hits(filter, minimum, n).contains(
                #[trigger] s.candidate(j),
            ),
    decreases n,
{
    if n > 0 {
        let m = (n - 1) as nat;
        lemma_hits_complete(s, filter, minimum, m);
        let h = s.hits(filter, minimum, m);
        let h2 = s.hits(filter, minimum, n);
        assert forall|j: nat|
            j < n && s.returnable_hit(j, filter, minimum) implies h2.contains(
            #[trigger] s.candidate(j),
        ) by {
            if j < m {
                assert(h.contains(s.candidate(j)));
                let i = choose|i: int| 0 <= i < h.len() && h[i] == s.candidate(j);
                if s.returnable_hit(m, filter, minimum) {
                    assert(h2[i] == s.candidate(j));
                }
            } else if s.returnable_hit(m, filter, minimum) {
                assert(h2[h.len() as int] == s.candidate(j));
            }
        }
    }
}

/// The targets' advances increase strictly and stay below `s.advance + n`.
pub proof fn lemma_hits_ascending(s: SearchView, filter: Filter, minimum: u32, n: nat)
    ensures
        forall|i1: int, i2: int|
            0 <= i1 < i2 < s.hits(filter, minimum, n).len() ==> #[trigger] s.hits(
                filter,
                minimum,
                n,
            )[i1].advance < #[trigger] s.hits(filter, minimum, n)[i2].advance,
        forall|i: int|
            0 <= i < s.hits(filter, minimum, n).len() ==> #[trigger] s.hits(
                filter,
                minimum,
                n,
            )[i].advance < s.advance + n,
    decreases n,
{
    if n > 0 {
        let m = (n - 1) as nat;
        lemma_hits_ascending(s, filter, minimum, m);
        let h = s.hits(filter, minimum, m);
        let h2 = s.hits(filter, minimum, n);
        if s.returnable_hit(m, filter, minimum) {
            assert(h2 == h.push(s.candidate(m)));
            assert forall|i: int| 0 <= i < h2.len() implies #[trigger] h2[i].advance < s.advance
                + n by {
                if i < h.len() {
                    assert(h2[i] == h[i]);
                }
            }
            assert forall|i1: int, i2: int|
                0 <= i1 < i2 < h2.len() implies #[trigger] h2[i1].advance
                < #[trigger] h2[i2].advance by {
                assert(h2[i1] == h[i1]);
                assert(h[i1].advance < s.advance + m);
                if i2 < h.len() {
                    assert(h2[i2] == h[i2]);
                }
            }
        }
    }
}

/// One Random call on `state` with DIV reads `adiv`, `sdiv` and carry `carry`:
/// the high byte becomes `state / 256 + adiv + carry` modulo 256; the low byte
/// loses `sdiv` and one more when that sum passed 255, modulo 256; and the carry
/// out is set exactly when that subtraction borrowed.
pub proof fn lemma_random_bytes(state: u16, adiv: u8, sdiv: u8, carry: bool)
    ensures
        ({
            let (out, borrow) = random_spec(state, adiv, sdiv, carry);
            let sum: int = state / 256 + adiv + (if carry { 1int } else { 0int });
            let taken: int = sdiv + (if sum > 255 { 1int } else { 0int });
            &&& out / 256 == sum % 256
            &&& out % 256 == (state % 256 - taken) % 256
            &&& borrow == (state % 256 < taken)
        }),
{
    let sum: int = state / 256 + adiv + (if carry { 1int } else { 0int });
    let taken: int = sdiv + (if sum > 255 { 1int } else { 0int });
    let x: int = sum % 256;
    let y: int = (state % 256 - taken) % 256;
    assert(0 <= x < 256 && 0 <= y < 256);
    assert((x * 256 + y) / 256 == x && (x * 256 + y) % 256 == y) by (nonlinear_arith)
        requires
            0 <= x < 256,
            0 <= y < 256,
    ;
    assert(0 <= x * 256 + y < 0x10000) by (nonlinear_arith)
        requires
            0 <= x < 256,
            0 <= y < 256,
    ;
}

/// The gift's DVs from the state before it and its four DIV reads: the
/// Attack/Defense byte is the low byte the first Random call leaves (run with the
/// carry clear), the Speed/Special byte the low byte of the second call, which
/// runs on the first call's result with its borrow as carry.
pub proof fn lemma_gift_dvs(state: u16, r0: u8, r1: u8, r2: u8, r3: u8)
    ensures
        ({
            let d = dvs_from_reads(state, r0, r1, r2, r3);
            let sum0: int = state / 256 + r0;
            let taken0: int = r1 + (if sum0 > 255 { 1int } else { 0int });
            let atk_def: int = (state % 256 - taken0) % 256;
            let carry: int = if state % 256 < taken0 { 1int } else { 0int };
            let sum1: int = sum0 % 256 + r2 + carry;
            let taken1: int = r3 + (if sum1 > 255 { 1int } else { 0int });
            &&& d.0 == atk_def
            &&& d.1 == (atk_def - taken1) % 256
        }),
{
    let (first, carry) = random_spec(state, r0, r1, false);
    lemma_random_bytes(state, r0, r1, false);
    lemma_random_bytes(first, r2, r3, carry);
    let (second, _) = random_spec(first, r2, r3, carry);
    assert(first as u8 == first % 256) by (bit_vector);
    assert(second as u8 == second % 256) by (bit_vector);
}

/// A model predicts read `i` as the DIV value it is fitted against (the add
/// tracker's for reads 0 and 2, the sub tracker's for 1 and 3) times the read's
/// slope plus its offset, modulo 256; and the DVs it predicts are the two Random
/// calls on the state before the gift with those four reads, Attack/Defense from
/// the first.
pub proof fn lemma_model_dvs(m: Model, before: Rng)
    ensures
        forall|i: int|
            0 <= i < 4 ==> #[trigger] m.predicted_read(before, i) == ((if i % 2 == 0 {
                before.add.value
            } else {
                before.sub.value
            }) * m.reads[i].slope + m.reads[i].offset) % 256,
        ({
            let p0: int = (before.add.value * m.reads[0].slope + m.reads[0].offset) % 256;
            let p1: int = (before.sub.value * m.reads[1].slope + m.reads[1].offset) % 256;
            let p2: int = (before.add.value * m.reads[2].slope + m.reads[2].offset) % 256;
            let p3: int = (before.sub.value * m.reads[3].slope + m.reads[3].offset) % 256;
            let d = m.predicted_dvs(before);
            let state = before.state;
            let sum0: int = state / 256 + p0;
            let taken0: int = p1 + (if sum0 > 255 { 1int } else { 0int });
            let atk_def: int = (state % 256 - taken0) % 256;
            let carry: int = if state % 256 < taken0 { 1int } else { 0int };
            let sum1: int = sum0 % 256 + p2 + carry;
            let taken1: int = p3 + (if sum1 > 255 { 1int } else { 0int });
            &&& d.0 == atk_def
            &&& d.1 == (atk_def - taken1) % 256
        }),
{
    lemma_gift_dvs(
        before.state,
        m.predicted_read(before, 0),
        m.predicted_read(before, 1),
        m.predicted_read(before, 2),
        m.predicted_read(before, 3),
    );
}

/// One DIV step moves the index on within its 0x4000 entries and adds 19 or 18
/// to the value, modulo 256: 19 at the indices whose low four bits are 3, 6, 9,
/// 12 or 15 and at 8, 0x562 and 0x22b5, except at 9, 0x563 and 0x22b6; 18
/// everywhere else.
pub proof fn lemma_div_step(d: Div)
    ensures
        ({
            let low = d.index % 16;
            let nineteen = ((low == 3 || low == 6 || low == 9 || low == 12 || low == 15)
                && d.index != 9 && d.index != 0x563 && d.index != 0x22b6) || d.index == 8
                || d.index == 0x562 || d.index == 0x22b5;
            &&& d.stepped().index == (d.index + 1) % 0x4000
            &&& d.stepped().value == (d.value + (if nineteen { 19int } else { 18int })) % 256
        }),
{
}

/// Advancing no times leaves the generator as it is, and advancing `n + 1`
/// times is one step after advancing `n` times.
pub proof fn lemma_advanced_steps(r: Rng, n: nat)
    ensures
        r.advanced(0) == r,
        r.advanced(n + 1) == r.advanced(n).stepped(),
        r.advanced(1) == r.stepped(),
{
    assert(r.advanced(1) == r.advanced(0).stepped());
}

/// A claim sample is valid exactly when its delay is at most 512, the generator
/// before the gift is its start advanced by the delay, and its DVs are the two
/// Random calls on that generator's state with its four reads.
pub proof fn lemma_sample_valid(sample: Sample)
    ensures
        sample.is_valid() <==> {
            &&& sample.delay <= 512
            &&& sample.start.advanced(sample.delay as nat) == sample.before
            &&& sample.dvs == dvs_from_reads(
                sample.before.state,
                sample.reads[0],
                sample.reads[1],
                sample.reads[2],
                sample.reads[3],
            )
        },
{
}

/// One generator advance steps both DIV trackers and then runs Random on the
/// state with their new values and the carry clear: the high byte gains the new
/// add value, the low byte loses the new sub value and the carry of that
/// addition, each modulo 256.
pub proof fn lemma_rng_step(r: Rng)
    ensures
        ({
            let s = r.stepped();
            let sum: int = r.state / 256 + s.add.value;
            &&& s.add == r.add.stepped()
            &&& s.sub == r.sub.stepped()
            &&& s.state / 256 == sum % 256
            &&& s.state % 256 == (r.state % 256 - s.sub.value - (if sum > 255 { 1int } else { 0int }))
                % 256
        }),
{
    reveal(Rng::stepped);
    lemma_random_bytes(r.state, r.add.stepped().value, r.sub.stepped().value, false);
}

/// A filter accepts DVs exactly when they are shiny if it asks for shininess,
/// have its gender if it names one (Attack 0 to 7 female, 8 to 15 male), and have
/// its Attack DV if it names one, or else one of the eight shiny-valid ones.
pub proof fn lemma_filter_accepts(f: Filter, d: Dvs)
    ensures
        f.accepts(d) && f.shiny ==> d.is_shiny(),
        f.accepts(d) && f.gender != Gender::Any ==> d.gender_of() == f.gender,
        f.accepts(d) && f.attack is Some ==> d.0 / 16 == f.attack.unwrap(),
        f.accepts(d) && f.attack is None ==> {
            let a = d.0 / 16;
            a == 2 || a == 3 || a == 6 || a == 7 || a == 10 || a == 11 || a == 14 || a == 15
        },
        (d.gender_of() == Gender::Female <==> d.0 < 0x80),
        (d.gender_of() == Gender::Male <==> d.0 >= 0x80),
        ({
            let a = d.0 / 16;
            &&& !f.shiny || d.is_shiny()
            &&& f.gender == Gender::Any || f.gender == d.gender_of()
            &&& match f.attack {
                Some(x) => x == a,
                None => a == 2 || a == 3 || a == 6 || a == 7 || a == 10 || a == 11 || a == 14 || a
                    == 15,
            }
        }) ==> f.accepts(d),
{
}

/// The presets: 1 shiny male, 2 shiny female, 3 shiny with Attack 15, any other
/// index shiny with any gender and any shiny-valid Attack.
pub proof fn lemma_presets(index: u8)
    ensures
        Filter::preset_spec(index) == (if index == 1 {
            Filter { shiny: true, gender: Gender::Male, attack: None }
        } else if index == 2 {
            Filter { shiny: true, gender: Gender::Female, attack: None }
        } else if index == 3 {
            Filter { shiny: true, gender: Gender::Any, attack: Some(15) }
        } else {
            Filter { shiny: true, gender: Gender::Any, attack: None }
        }),
{
}

/// A received Dratini is verified only if it is Dratini (147) at level 15 with
/// the target DVs, and those DVs pass the selected filter; then it is a success
/// exactly when move 4 is ExtremeSpeed (0xf5) and otherwise reported as missing
/// it.
pub proof fn lemma_verify_outcomes(
    species: u8,
    level: u8,
    dvs: Dvs,
    move4: u8,
    target: Dvs,
    filter: Filter,
)
    ensures
        ({
            let r = verify_spec(species, level, dvs, move4, target, filter);
            let fits = species == 147 && level == 15 && dvs == target && filter.accepts(dvs);
            &&& r != Verification::Failed <==> fits
            &&& r == Verification::Success <==> fits && move4 == 0xf5
            &&& r == Verification::MissingExtremeSpeed <==> fits && move4 != 0xf5
        }),
{
}

/// How a claim stands after an overlay update: it fails once the game leaves the
/// shrine or the advance counter resets; otherwise exactly one new party member
/// with the received flag completes it, whenever that happens. Short of that,
/// within 7200 updates it waits while the party keeps its size without the flag
/// or has the new member without the flag yet; after 7200 updates it fails, and
/// so does any other party change or the flag without a new member.
pub proof fn lemma_claim_outcomes(
    start_count: u8,
    count: u8,
    received: bool,
    in_shrine: bool,
    elapsed: u32,
    advancing: bool,
)
    ensures
        ({
            let r = claim_progress_spec(start_count, count, received, in_shrine, elapsed, advancing);
            let grown = count == start_count + 1;
            &&& !in_shrine || !advancing ==> r == ClaimProgress::Failed
            &&& in_shrine && advancing && grown && received ==> r == ClaimProgress::Complete
            &&& in_shrine && advancing && elapsed <= 7200 && !received && (grown || count
                == start_count) ==> r == ClaimProgress::Waiting
            &&& elapsed > 7200 && !(grown && received) ==> r == ClaimProgress::Failed
            &&& count != start_count && !grown ==> r == ClaimProgress::Failed
            &&& count == start_count && received ==> r == ClaimProgress::Failed
        }),
{
}

/// The position of the one bit of an identified mask.
fn single_slope(mask: u8) -> (r: u8)
    requires
        identified(mask),
    ensures
        r == slope_of(mask),
{
    let tz = mask.trailing_zeros();
    proof {
        broadcast use vstd::std_specs::bits::axiom_u8_trailing_zeros;
        let t = tz as u8;
        assert(tz < 8);
        if mask == 1 {
            assert((1u8 >> 0u8) & 1u8 == 1u8) by (bit_vector);
            if tz > 0 {
                assert((1u8 >> 0u8) & 1u8 == 0u8);
            }
        } else if mask == 2 {
            assert((2u8 >> 0u8) & 1u8 == 0u8) by (bit_vector);
            assert((2u8 >> 1u8) & 1u8 == 1u8) by (bit_vector);
            assert(forall|k: u8| 2 <= k < 8 ==> (2u8 >> k) & 1u8 == 0u8) by (bit_vector);
            if tz > 1 {
                assert((2u8 >> 1u8) & 1u8 == 0u8);
            }
            if tz == 0 {
                assert((2u8 >> t) & 1u8 == 1u8);
            }
        } else {
            assert((4u8 >> 0u8) & 1u8 == 0u8) by (bit_vector);
            assert((4u8 >> 1u8) & 1u8 == 0u8) by (bit_vector);
            assert((4u8 >> 2u8) & 1u8 == 1u8) by (bit_vector);
            assert(forall|k: u8| 3 <= k < 8 ==> (4u8 >> k) & 1u8 == 0u8) by (bit_vector);
            if tz > 2 {
                assert((4u8 >> 2u8) & 1u8 == 0u8);
            }
            if tz == 0 {
                assert((4u8 >> t) & 1u8 == 1u8);
            }
            if tz == 1 {
                assert((4u8 >> t) & 1u8 == 1u8);
            }
        }
    }
    tz as u8
}

} // verus!
