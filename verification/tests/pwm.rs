use firmware::math::PhasePwmVector;
use firmware::pwm::{
    check_phase, check_pins_differ, phase_command, pwm_channel_of, Channel, Direction, Level,
    PhaseCommand,
    Output, OutputWrite, PwmManager, WiringError,
};
use firmware::single::Single;

fn s(x: f32) -> Single {
    Single::from_bits(x.to_bits())
}

fn duties(a: f32, b: f32, c: f32) -> PhasePwmVector {
    [s(a), s(b), s(c)]
}

fn channel(slice: u8, output: Output) -> Channel {
    Channel { slice, output }
}

/// The wiring of the board: PWM on pins 16, 18, 20, direction on pins 17, 19, 21.
fn board() -> PwmManager {
    PwmManager::try_new(
        channel(0, Output::A),
        channel(1, Output::A),
        channel(2, Output::A),
        17,
        19,
        21,
        16,
        18,
        20,
    )
    .unwrap()
}

/// The outputs as the hardware would hold them after some writes.
#[derive(Clone, Debug, PartialEq)]
struct Outputs {
    levels: [Option<Level>; 30],
    duties: [[Option<u16>; 2]; 8],
    order: Vec<OutputWrite>,
}

fn apply(writes: &[OutputWrite]) -> Outputs {
    let mut out = Outputs { levels: [None; 30], duties: [[None; 2]; 8], order: Vec::new() };
    for w in writes.iter() {
        match *w {
            OutputWrite::Direction { pin, level } => out.levels[pin as usize] = Some(level),
            OutputWrite::Duty { channel, duty } => {
                let side = if channel.output == Output::A { 0 } else { 1 };
                out.duties[channel.slice as usize][side] = Some(duty)
            }
        }
        out.order.push(*w);
    }
    out
}

#[test]
fn sign_convention() {
    let mut m = board();
    let out = apply(&m.set_duty(duties(0.5, -0.5, 0.0)));
    assert_eq!(out.levels[17], Some(Level::High));
    assert_eq!(out.duties[0][0], Some(32767));
    assert_eq!(out.levels[19], Some(Level::Low));
    assert_eq!(out.duties[1][0], Some(32767));
    assert_eq!(out.levels[21], Some(Level::High));
    assert_eq!(out.duties[2][0], Some(0));
}

#[test]
fn scaling_is_exact_at_the_ends() {
    assert_eq!(phase_command(s(1.0)), PhaseCommand { direction: Direction::Forward, duty: 65535 });
    assert_eq!(phase_command(s(-1.0)), PhaseCommand { direction: Direction::Reverse, duty: 65535 });
    assert_eq!(phase_command(s(0.0)), PhaseCommand { direction: Direction::Forward, duty: 0 });
    assert_eq!(phase_command(s(-0.0)), PhaseCommand { direction: Direction::Forward, duty: 0 });
    assert_eq!(phase_command(s(0.25)).duty, 16383);
}

#[test]
fn scaling_matches_hardware_arithmetic() {
    let mut state: u64 = 5;
    for _ in 0..300000 {
        state = state.wrapping_mul(6364136223846793005).wrapping_add(1442695040888963407);
        let bits = (state >> 32) as u32;
        let x = f32::from_bits(bits);
        let c = phase_command(Single::from_bits(bits));
        assert_eq!(c.duty, (x.abs() * 65535.0) as u16, "{:08x}", bits);
        assert_eq!(c.direction == Direction::Forward, x >= 0.0, "{:08x}", bits);
    }
    for i in 0..=65535u32 {
        let x = i as f32 / 65535.0;
        assert_eq!(phase_command(s(x)).duty, (x.abs() * 65535.0) as u16);
        assert_eq!(phase_command(s(-x)).duty, (x.abs() * 65535.0) as u16);
    }
}

#[test]
fn out_of_range_duties_are_not_rejected() {
    assert_eq!(phase_command(s(1.5)).duty, 65535);
    assert_eq!(phase_command(s(-7.0)), PhaseCommand { direction: Direction::Reverse, duty: 65535 });
    assert_eq!(phase_command(s(f32::INFINITY)).duty, 65535);
    assert_eq!(phase_command(s(f32::NAN)), PhaseCommand { direction: Direction::Reverse, duty: 0 });
}

#[test]
fn writes_come_phase_by_phase_direction_first() {
    let mut m = board();
    let writes = m.set_duty(duties(1.0, -1.0, 0.0));
    assert_eq!(
        writes,
        [
            OutputWrite::Direction { pin: 17, level: Level::High },
            OutputWrite::Duty { channel: channel(0, Output::A), duty: 65535 },
            OutputWrite::Direction { pin: 19, level: Level::Low },
            OutputWrite::Duty { channel: channel(1, Output::A), duty: 65535 },
            OutputWrite::Direction { pin: 21, level: Level::High },
            OutputWrite::Duty { channel: channel(2, Output::A), duty: 0 },
        ]
    );
}

#[test]
fn repeated_calls_write_the_same() {
    let mut m = board();
    let v = duties(0.3, -0.8, 0.1);
    let first = m.set_duty(v);
    let second = m.set_duty(v);
    assert_eq!(first, second);
    let _ = m.set_duty(duties(-1.0, 1.0, -0.5));
    assert_eq!(m.set_duty(v), first);
}

#[test]
fn phases_are_independent() {
    let mut m = board();
    let before = m.set_duty(duties(0.3, -0.8, 0.1));
    let after = m.set_duty(duties(0.3, 0.6, 0.1));
    assert_eq!(before[0..2], after[0..2]);
    assert_eq!(before[4..6], after[4..6]);
    assert_ne!(before[2..4], after[2..4]);
    let (x, y) = (apply(&before), apply(&after));
    assert_eq!(x.levels[17], y.levels[17]);
    assert_eq!(x.duties[0], y.duties[0]);
    assert_eq!(x.levels[21], y.levels[21]);
    assert_eq!(x.duties[2], y.duties[2]);
}

#[test]
fn phase_bindings_are_kept() {
    let m = board();
    for (i, (pin, dir)) in [(16u8, 17u8), (18, 19), (20, 21)].iter().enumerate() {
        let p = m.get_phase(i);
        assert_eq!(p.get_pwm_pin(), *pin);
        assert_eq!(p.get_dir_pin(), *dir);
        assert_eq!(p.get_channel(), channel(i as u8, Output::A));
        assert_eq!(
            p.writes(s(-0.5)),
            [
                OutputWrite::Direction { pin: *dir, level: Level::Low },
                OutputWrite::Duty { channel: channel(i as u8, Output::A), duty: 32767 },
            ]
        );
    }
}

#[test]
fn pins_map_to_channels() {
    assert_eq!(pwm_channel_of(0), Some(channel(0, Output::A)));
    assert_eq!(pwm_channel_of(1), Some(channel(0, Output::B)));
    assert_eq!(pwm_channel_of(14), Some(channel(7, Output::A)));
    assert_eq!(pwm_channel_of(15), Some(channel(7, Output::B)));
    assert_eq!(pwm_channel_of(16), Some(channel(0, Output::A)));
    assert_eq!(pwm_channel_of(21), Some(channel(2, Output::B)));
    assert_eq!(pwm_channel_of(29), Some(channel(6, Output::B)));
    assert_eq!(pwm_channel_of(30), None);
    assert_eq!(pwm_channel_of(255), None);
    assert_eq!(Direction::Forward.level(), Level::High);
    assert_eq!(Direction::Reverse.level(), Level::Low);
}

#[test]
fn wiring_faults_are_told_apart() {
    let a = |n| channel(n, Output::A);
    let b = |n| channel(n, Output::B);
    // pin 17 is output B of slice 0, not output A
    assert_eq!(
        PwmManager::try_new(a(0), a(1), a(2), 16, 19, 21, 17, 18, 20).err(),
        Some(WiringError::InvalidPwmPin { phase: 0 })
    );
    assert_eq!(
        PwmManager::try_new(a(0), a(1), a(2), 17, 19, 21, 16, 30, 20).err(),
        Some(WiringError::InvalidPwmPin { phase: 1 })
    );
    assert_eq!(
        PwmManager::try_new(a(0), a(1), channel(8, Output::A), 17, 19, 21, 16, 18, 20).err(),
        Some(WiringError::InvalidPwmPin { phase: 2 })
    );
    assert_eq!(
        PwmManager::try_new(a(0), a(1), a(2), 17, 19, 30, 16, 18, 20).err(),
        Some(WiringError::InvalidDirectionPin { phase: 2 })
    );
    assert_eq!(
        PwmManager::try_new(a(0), a(1), a(2), 17, 17, 21, 16, 18, 20).err(),
        Some(WiringError::PinConflict)
    );
    assert_eq!(
        PwmManager::try_new(a(0), a(1), a(2), 18, 19, 21, 16, 18, 20).err(),
        Some(WiringError::PinConflict)
    );
    // pins 0 and 16 are both output A of slice 0
    assert_eq!(
        PwmManager::try_new(a(0), a(0), a(2), 17, 19, 21, 0, 16, 20).err(),
        Some(WiringError::ChannelConflict)
    );
    assert!(PwmManager::try_new(a(0), b(0), a(2), 2, 3, 5, 0, 1, 4).is_ok());
    assert_eq!(check_phase(1, a(3), 4, 6), None);
    assert_eq!(check_phase(1, a(3), 40, 6), Some(WiringError::InvalidDirectionPin { phase: 1 }));
    assert!(check_pins_differ(1, 2, 3, 4, 5, 6));
    assert!(!check_pins_differ(1, 2, 3, 4, 5, 1));
}

#[test]
fn new_takes_a_sound_wiring_as_it_is() {
    let mut m = PwmManager::new(
        channel(0, Output::A),
        channel(1, Output::A),
        channel(2, Output::A),
        17,
        19,
        21,
        16,
        18,
        20,
    );
    let mut n = board();
    assert_eq!(m.set_duty(duties(0.1, 0.2, -0.3)), n.set_duty(duties(0.1, 0.2, -0.3)));
}
