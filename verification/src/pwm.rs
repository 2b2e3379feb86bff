//! The three-phase output driver: each phase is a PWM channel that carries the
//! magnitude of the duty, and a direction pin that carries its sign.
//!
//! The driver decides what is written and in which order; the caller performs the
//! writes on the hardware.
use vstd::prelude::*;
use crate::math::PhasePwmVector;
use crate::single::Single;

verus! {

/// The full scale of a duty register, 65535, in single precision.
pub const FULL_SCALE_BITS: u32 = 0x477f_ff00;

/// The number of GPIO pins of the RP2040; they are numbered from 0.
pub const PIN_COUNT: u8 = 30;

/// The direction of the current through a phase.
#[derive(Clone, Copy, Debug, PartialEq, Eq, Structural)]
pub enum Direction {
    Forward,
    Reverse,
}

/// The logic level of a pin.
#[derive(Clone, Copy, Debug, PartialEq, Eq, Structural)]
pub enum Level {
    Low,
    High,
}

/// One of the two outputs of a PWM slice.
#[derive(Clone, Copy, Debug, PartialEq, Eq, Structural)]
pub enum Output {
    A,
    B,
}

/// A PWM channel: one output of one of the slices 0 to 7.
#[derive(Clone, Copy, Debug, PartialEq, Eq, Structural)]
pub struct Channel {
    pub slice: u8,
    pub output: Output,
}

/// What one phase is to be driven with.
#[derive(Clone, Copy, Debug, PartialEq, Eq, Structural)]
pub struct PhaseCommand {
    pub direction: Direction,
    pub duty: u16,
}

/// One write to the hardware.
#[derive(Clone, Copy, Debug, PartialEq, Eq, Structural)]
pub enum OutputWrite {
    /// Drive a direction pin to a level.
    Direction { pin: u8, level: Level },
    /// Load the duty register of a channel.
    Duty { channel: Channel, duty: u16 },
}

/// Why three phases cannot be wired as asked.
#[derive(Clone, Copy, Debug, PartialEq, Eq, Structural)]
pub enum WiringError {
    /// The PWM pin of this phase does not exist or is not an output of the phase's
    /// channel.
    InvalidPwmPin { phase: u8 },
    /// The direction pin of this phase does not exist.
    InvalidDirectionPin { phase: u8 },
    /// One pin is asked to serve twice.
    PinConflict,
    /// Two phases are asked to share a channel.
    ChannelConflict,
}

impl Direction {
    /// The level of the direction pin: high for forward, low for reverse.
    pub open spec fn level_spec(self) -> Level {
        match self {
            Direction::Forward => Level::High,
            Direction::Reverse => Level::Low,
        }
    }

    pub fn level(self) -> (r: Level)
        ensures
            r == self.level_spec(),
    {
        match self {
            Direction::Forward => Level::High,
            Direction::Reverse => Level::Low,
        }
    }
}

/// The direction that a duty asks for: forward when it is at least zero, zero of
/// either sign included; reverse when it is negative or a NaN.
pub open spec fn direction_of(value: Single) -> Direction {
    if value.ge_zero_spec() {
        Direction::Forward
    } else {
        Direction::Reverse
    }
}

pub open spec fn full_scale() -> Single {
    Single { bits: FULL_SCALE_BITS }
}

/// The duty register value of a duty: the magnitude times 65535, rounded to single
/// precision, without its fraction and held to the register's range. Magnitudes
/// above one are not rejected: they give 65535. A NaN gives 0.
pub open spec fn duty_of(value: Single) -> u16 {
    value.abs_spec().mul_spec(full_scale()).to_u16_spec()
}

pub open spec fn command_of(value: Single) -> PhaseCommand {
    PhaseCommand { direction: direction_of(value), duty: duty_of(value) }
}

/// Turns a signed duty into direction and magnitude. All phases share this
/// conversion.
pub fn phase_command(value: Single) -> (r: PhaseCommand)
    ensures
        r == command_of(value),
{
    let direction = if value.ge_zero() {
        Direction::Forward
    } else {
        Direction::Reverse
    };
    let duty = value.abs().mul(Single::from_bits(FULL_SCALE_BITS)).to_u16();
    PhaseCommand { direction, duty }
}

/// The channel that a pin is an output of: pins 0 to 15 belong, in pairs, to the
/// slices 0 to 7, and so do pins 16 to 29 to the slices 0 to 6; the even pin of a
/// pair is output A, the odd one output B.
pub open spec fn channel_of_pin(pin: u8) -> Channel {
    Channel {
        slice: ((pin / 2) % 8) as u8,
        output: if pin % 2 == 0 {
            Output::A
        } else {
            Output::B
        },
    }
}

/// Whether the pin exists and is an output of the channel.
pub open spec fn drives(pin: u8, channel: Channel) -> bool {
    pin < PIN_COUNT && channel == channel_of_pin(pin)
}

/// The channel that a pin is an output of, if the pin exists.
pub fn pwm_channel_of(pin: u8) -> (r: Option<Channel>)
    ensures
        r == (if pin < PIN_COUNT {
            Some(channel_of_pin(pin))
        } else {
            None
        }),
{
    if pin < PIN_COUNT {
        Some(
            Channel {
                slice: (pin / 2) % 8,
                output: if pin % 2 == 0 {
                    Output::A
                } else {
                    Output::B
                },
            },
        )
    } else {
        None
    }
}

/// What is wrong with the wiring of one phase, if anything.
pub open spec fn phase_fault(phase: u8, pwm: Channel, dir: u8, pwm_pin: u8) -> Option<WiringError> {
    if !drives(pwm_pin, pwm) {
        Some(WiringError::InvalidPwmPin { phase })
    } else if dir >= PIN_COUNT {
        Some(WiringError::InvalidDirectionPin { phase })
    } else {
        None
    }
}

/// Whether six pins are six different pins.
pub open spec fn pins_differ(a: u8, b: u8, c: u8, d: u8, e: u8, f: u8) -> bool {
    &&& a != b && a != c && a != d && a != e && a != f
    &&& b != c && b != d && b != e && b != f
    &&& c != d && c != e && c != f
    &&& d != e && d != f
    &&& e != f
}

/// The first thing that is wrong with a wiring of three phases, if anything: the
/// phases are looked at in order, then the pins together, then the channels.
pub open spec fn wiring_fault(
    pwm0: Channel,
    pwm1: Channel,
    pwm2: Channel,
    dir0: u8,
    dir1: u8,
    dir2: u8,
    pwm_pin0: u8,
    pwm_pin1: u8,
    pwm_pin2: u8,
) -> Option<WiringError> {
    if phase_fault(0, pwm0, dir0, pwm_pin0) is Some {
        phase_fault(0, pwm0, dir0, pwm_pin0)
    } else if phase_fault(1, pwm1, dir1, pwm_pin1) is Some {
        phase_fault(1, pwm1, dir1, pwm_pin1)
    } else if phase_fault(2, pwm2, dir2, pwm_pin2) is Some {
        phase_fault(2, pwm2, dir2, pwm_pin2)
    } else if !pins_differ(dir0, dir1, dir2, pwm_pin0, pwm_pin1, pwm_pin2) {
        Some(WiringError::PinConflict)
    } else if pwm0 == pwm1 || pwm0 == pwm2 || pwm1 == pwm2 {
        Some(WiringError::ChannelConflict)
    } else {
        None
    }
}

/// The outputs of one phase: its PWM channel, the pin that the channel drives, and
/// its direction pin.
pub struct PwmManagerPhase {
    pwm: Channel,
    pwm_pin: u8,
    dir: u8,
}

impl PwmManagerPhase {
    pub closed spec fn channel(self) -> Channel {
        self.pwm
    }

    pub closed spec fn pwm_pin(self) -> u8 {
        self.pwm_pin
    }

    pub closed spec fn dir_pin(self) -> u8 {
        self.dir
    }

    /// A phase is well wired when both pins exist and differ and the PWM pin is an
    /// output of the channel.
    pub open spec fn wf(self) -> bool {
        &&& drives(self.pwm_pin(), self.channel())
        &&& self.dir_pin() < PIN_COUNT
        &&& self.dir_pin() != self.pwm_pin()
    }

    #[verifier::type_invariant]
    spec fn well_wired(self) -> bool {
        self.wf()
    }

    /// The writes that drive this phase with a duty: the direction first, so that
    /// no magnitude is ever applied in a stale direction.
    pub open spec fn writes_spec(self, value: Single) -> Seq<OutputWrite> {
        seq![
            OutputWrite::Direction {
                pin: self.dir_pin(),
                level: direction_of(value).level_spec(),
            },
            OutputWrite::Duty { channel: self.channel(), duty: duty_of(value) },
        ]
    }

    /// The writes that drive this phase with a duty.
    pub fn writes(&self, value: Single) -> (r: [OutputWrite; 2])
        ensures
            r@ == self.writes_spec(value),
    {
        let command = phase_command(value);
        [
            OutputWrite::Direction { pin: self.dir, level: command.direction.level() },
            OutputWrite::Duty { channel: self.pwm, duty: command.duty },
        ]
    }

    pub fn get_channel(&self) -> (r: Channel)
        ensures
            r == self.channel(),
            drives(self.pwm_pin(), r),
    {
        proof {
            use_type_invariant(self);
        }
        self.pwm
    }

    pub fn get_pwm_pin(&self) -> (r: u8)
        ensures
            r == self.pwm_pin(),
            r < PIN_COUNT,
    {
        proof {
            use_type_invariant(self);
        }
        self.pwm_pin
    }

    pub fn get_dir_pin(&self) -> (r: u8)
        ensures
            r == self.dir_pin(),
            r < PIN_COUNT,
    {
        proof {
            use_type_invariant(self);
        }
        self.dir
    }
}

/// The driver of the three phases 0, 1 and 2. Which outputs belong to which phase
/// is settled when the driver is made and never changes.
pub struct PwmManager {
    pwm0: PwmManagerPhase,
    pwm1: PwmManagerPhase,
    pwm2: PwmManagerPhase,
}

impl PwmManager {
    /// The outputs of a phase; the phases are numbered 0, 1 and 2.
    pub closed spec fn phase(self, i: int) -> PwmManagerPhase {
        if i == 0 {
            self.pwm0
        } else if i == 1 {
            self.pwm1
        } else {
            self.pwm2
        }
    }

    /// The wiring that a driver stands for is one without a fault.
    pub open spec fn wf(self) -> bool {
        wiring_fault(
            self.phase(0).channel(),
            self.phase(1).channel(),
            self.phase(2).channel(),
            self.phase(0).dir_pin(),
            self.phase(1).dir_pin(),
            self.phase(2).dir_pin(),
            self.phase(0).pwm_pin(),
            self.phase(1).pwm_pin(),
            self.phase(2).pwm_pin(),
        ) is None
    }

    #[verifier::type_invariant]
    spec fn well_wired(self) -> bool {
        self.wf()
    }

    /// Whether the driver stands for exactly this wiring.
    pub open spec fn wired_as(
        self,
        pwm0: Channel,
        pwm1: Channel,
        pwm2: Channel,
        dir0: u8,
        dir1: u8,
        dir2: u8,
        pwm_pin0: u8,
        pwm_pin1: u8,
        pwm_pin2: u8,
    ) -> bool {
        &&& self.phase(0).channel() == pwm0
        &&& self.phase(1).channel() == pwm1
        &&& self.phase(2).channel() == pwm2
        &&& self.phase(0).dir_pin() == dir0
        &&& self.phase(1).dir_pin() == dir1
        &&& self.phase(2).dir_pin() == dir2
        &&& self.phase(0).pwm_pin() == pwm_pin0
        &&& self.phase(1).pwm_pin() == pwm_pin1
        &&& self.phase(2).pwm_pin() == pwm_pin2
    }

    /// Makes the driver of a wiring that is known to be without fault. The proof of
    /// that is owed where the call is verified; nothing is tested when the program
    /// runs.
    pub fn new(
        pwm0: Channel,
        pwm1: Channel,
        pwm2: Channel,
        dir0: u8,
        dir1: u8,
        dir2: u8,
        pwm_pin0: u8,
        pwm_pin1: u8,
        pwm_pin2: u8,
    ) -> (r: Self)
        requires
            wiring_fault(pwm0, pwm1, pwm2, dir0, dir1, dir2, pwm_pin0, pwm_pin1, pwm_pin2) is None,
        ensures
            r.wired_as(pwm0, pwm1, pwm2, dir0, dir1, dir2, pwm_pin0, pwm_pin1, pwm_pin2),
            r.wf(),
    {
        PwmManager {
            pwm0: PwmManagerPhase { pwm: pwm0, dir: dir0, pwm_pin: pwm_pin0 },
            pwm1: PwmManagerPhase { pwm: pwm1, dir: dir1, pwm_pin: pwm_pin1 },
            pwm2: PwmManagerPhase { pwm: pwm2, dir: dir2, pwm_pin: pwm_pin2 },
        }
    }

    /// Tests a wiring and makes its driver, or says what is wrong with the wiring.
    pub fn try_new(
        pwm0: Channel,
        pwm1: Channel,
        pwm2: Channel,
        dir0: u8,
        dir1: u8,
        dir2: u8,
        pwm_pin0: u8,
        pwm_pin1: u8,
        pwm_pin2: u8,
    ) -> (r: Result<Self, WiringError>)
        ensures
            match wiring_fault(pwm0, pwm1, pwm2, dir0, dir1, dir2, pwm_pin0, pwm_pin1, pwm_pin2) {
                Some(fault) => r == Err::<Self, WiringError>(fault),
                None => r is Ok && r->Ok_0.wf() && r->Ok_0.wired_as(
                    pwm0,
                    pwm1,
                    pwm2,
                    dir0,
                    dir1,
                    dir2,
                    pwm_pin0,
                    pwm_pin1,
                    pwm_pin2,
                ),
            },
    {
        if let Some(fault) = check_phase(0, pwm0, dir0, pwm_pin0) {
            return Err(fault);
        }
        if let Some(fault) = check_phase(1, pwm1, dir1, pwm_pin1) {
            return Err(fault);
        }
        if let Some(fault) = check_phase(2, pwm2, dir2, pwm_pin2) {
            return Err(fault);
        }
        if !check_pins_differ(dir0, dir1, dir2, pwm_pin0, pwm_pin1, pwm_pin2) {
            return Err(WiringError::PinConflict);
        }
        if pwm0 == pwm1 || pwm0 == pwm2 || pwm1 == pwm2 {
            return Err(WiringError::ChannelConflict);
        }
        Ok(PwmManager::new(pwm0, pwm1, pwm2, dir0, dir1, dir2, pwm_pin0, pwm_pin1, pwm_pin2))
    }

    /// The writes that drive the three phases with the three duties, phase by
    /// phase in the order 0, 1, 2, and within a phase the direction before the
    /// magnitude.
    pub open spec fn writes_spec(self, value: Seq<Single>) -> Seq<OutputWrite> {
        self.phase(0).writes_spec(value[0]) + self.phase(1).writes_spec(value[1])
            + self.phase(2).writes_spec(value[2])
    }

    /// The driver after it has decided the writes for some duties: the driver as
    /// it was before.
    pub open spec fn after_set_duty(self, value: Seq<Single>) -> PwmManager {
        self
    }

    /// Decides the writes that drive the three phases with the three duties. The
    /// caller performs them in the order given. The driver itself is left as it
    /// was: every call decides afresh, from the duties alone.
    pub fn set_duty(&mut self, value: PhasePwmVector) -> (writes: [OutputWrite; 6])
        ensures
            writes@ == old(self).writes_spec(value@),
            *final(self) == old(self).after_set_duty(value@),
            *final(self) == *old(self),
    {
        let w0 = self.pwm0.writes(value[0]);
        let w1 = self.pwm1.writes(value[1]);
        let w2 = self.pwm2.writes(value[2]);
        let writes = [w0[0], w0[1], w1[0], w1[1], w2[0], w2[1]];
        assert(writes@ =~= self.writes_spec(value@));
        writes
    }

    /// The outputs of a phase.
    pub fn get_phase(&self, i: usize) -> (r: &PwmManagerPhase)
        requires
            i < 3,
        ensures
            *r == self.phase(i as int),
    {
        if i == 0 {
            &self.pwm0
        } else if i == 1 {
            &self.pwm1
        } else {
            &self.pwm2
        }
    }
}

/// Tests the wiring of one phase.
pub fn check_phase(phase: u8, pwm: Channel, dir: u8, pwm_pin: u8) -> (r: Option<WiringError>)
    ensures
        r == phase_fault(phase, pwm, dir, pwm_pin),
{
    let fits = match pwm_channel_of(pwm_pin) {
        Some(channel) => channel == pwm,
        None => false,
    };
    if !fits {
        Some(WiringError::InvalidPwmPin { phase })
    } else if dir >= PIN_COUNT {
        Some(WiringError::InvalidDirectionPin { phase })
    } else {
        None
    }
}

/// Tests that six pins are six different pins.
pub fn check_pins_differ(a: u8, b: u8, c: u8, d: u8, e: u8, f: u8) -> (r: bool)
    ensures
        r == pins_differ(a, b, c, d, e, f),
{
    a != b && a != c && a != d && a != e && a != f && b != c && b != d && b != e && b != f && c
        != d && c != e && c != f && d != e && d != f && e != f
}

/// Driving twice with the same duties gives the same writes both times: a call
/// leaves nothing behind that a later call depends on.
pub proof fn lemma_set_duty_repeats(manager: PwmManager, value: Seq<Single>)
    ensures
        manager.after_set_duty(value).writes_spec(value) == manager.writes_spec(value),
        manager.after_set_duty(value) == manager,
{
}

/// The writes of a phase stand at their fixed places among the six and depend on
/// the duty of that phase alone: two vectors that agree on a phase give it the
/// same writes, whatever the other duties are.
pub proof fn lemma_phases_independent(
    manager: PwmManager,
    first: Seq<Single>,
    second: Seq<Single>,
    i: int,
)
    requires
        0 <= i < 3,
        first.len() == 3,
        second.len() == 3,
        first[i] == second[i],
    ensures
        manager.writes_spec(first).len() == 6,
        manager.writes_spec(first).subrange(2 * i, 2 * i + 2) == manager.phase(i).writes_spec(
            first[i],
        ),
        manager.writes_spec(first).subrange(2 * i, 2 * i + 2) == manager.writes_spec(
            second,
        ).subrange(2 * i, 2 * i + 2),
{
    let mine = manager.phase(i).writes_spec(first[i]);
    assert(manager.writes_spec(first).subrange(2 * i, 2 * i + 2) =~= mine);
    assert(manager.writes_spec(second).subrange(2 * i, 2 * i + 2) =~= mine);
}

/// Two phases of a driver have nothing in common: neither a pin nor a channel. So
/// no write for one phase reaches an output of another.
pub proof fn lemma_phases_apart(manager: PwmManager, i: int, j: int)
    requires
        manager.wf(),
        0 <= i < 3,
        0 <= j < 3,
        i != j,
    ensures
        manager.phase(i).channel() != manager.phase(j).channel(),
        manager.phase(i).dir_pin() != manager.phase(j).dir_pin(),
        manager.phase(i).pwm_pin() != manager.phase(j).pwm_pin(),
        manager.phase(i).dir_pin() != manager.phase(j).pwm_pin(),
        manager.phase(i).wf(),
{
}

} // verus!
