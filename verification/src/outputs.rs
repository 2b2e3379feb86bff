//! What the hardware outputs hold once the writes that the driver decided are
//! performed.
use vstd::prelude::*;
use crate::pwm::{
    direction_of, duty_of, lemma_phases_apart, Channel, Level, OutputWrite, PwmManager,
};
use crate::single::Single;

verus! {

/// What the hardware outputs hold: the level of each direction pin and the duty
/// register of each channel.
pub struct Outputs {
    pub levels: Map<u8, Level>,
    pub duties: Map<Channel, u16>,
}

/// The outputs after one write.
pub open spec fn perform(outputs: Outputs, write: OutputWrite) -> Outputs {
    match write {
        OutputWrite::Direction { pin, level } => Outputs {
            levels: outputs.levels.insert(pin, level),
            duties: outputs.duties,
        },
        OutputWrite::Duty { channel, duty } => Outputs {
            levels: outputs.levels,
            duties: outputs.duties.insert(channel, duty),
        },
    }
}

/// The outputs after a row of writes, performed from the first to the last.
pub open spec fn perform_all(outputs: Outputs, writes: Seq<OutputWrite>) -> Outputs
    decreases writes.len(),
{
    if writes.len() == 0 {
        outputs
    } else {
        perform(perform_all(outputs, writes.drop_last()), writes.last())
    }
}

/// The outputs after the writes that were decided for three duties.
pub open spec fn outputs_after(manager: PwmManager, value: Seq<Single>, before: Outputs) -> Outputs {
    perform_all(before, manager.writes_spec(value))
}

/// The outputs after the six writes, spelled out.
proof fn lemma_six_writes(manager: PwmManager, value: Seq<Single>, before: Outputs)
    requires
        value.len() == 3,
    ensures
        outputs_after(manager, value, before).levels == before.levels.insert(
            manager.phase(0).dir_pin(),
            direction_of(value[0]).level_spec(),
        ).insert(manager.phase(1).dir_pin(), direction_of(value[1]).level_spec()).insert(
            manager.phase(2).dir_pin(),
            direction_of(value[2]).level_spec(),
        ),
        outputs_after(manager, value, before).duties == before.duties.insert(
            manager.phase(0).channel(),
            duty_of(value[0]),
        ).insert(manager.phase(1).channel(), duty_of(value[1])).insert(
            manager.phase(2).channel(),
            duty_of(value[2]),
        ),
{
    let w = manager.writes_spec(value);
    assert(w.len() == 6);
    let w5 = w.drop_last();
    let w4 = w5.drop_last();
    let w3 = w4.drop_last();
    let w2 = w3.drop_last();
    let w1 = w2.drop_last();
    let w0 = w1.drop_last();
    assert(w0.len() == 0);
    assert(perform_all(before, w0) == before);
    assert(perform_all(before, w1) == perform(perform_all(before, w0), w[0]));
    assert(perform_all(before, w2) == perform(perform_all(before, w1), w[1]));
    assert(perform_all(before, w3) == perform(perform_all(before, w2), w[2]));
    assert(perform_all(before, w4) == perform(perform_all(before, w3), w[3]));
    assert(perform_all(before, w5) == perform(perform_all(before, w4), w[4]));
    assert(perform_all(before, w) == perform(perform_all(before, w5), w[5]));
}

/// Once the writes that were decided for three duties are performed, every phase
/// holds what its duty asks for: its direction pin the level of the direction, its
/// channel the duty register value.
pub proof fn lemma_outputs_follow_duties(
    manager: PwmManager,
    value: Seq<Single>,
    before: Outputs,
    i: int,
)
    requires
        manager.wf(),
        value.len() == 3,
        0 <= i < 3,
    ensures
        outputs_after(manager, value, before).levels.dom().contains(manager.phase(i).dir_pin()),
        outputs_after(manager, value, before).levels[manager.phase(i).dir_pin()] == direction_of(
            value[i],
        ).level_spec(),
        outputs_after(manager, value, before).duties.dom().contains(manager.phase(i).channel()),
        outputs_after(manager, value, before).duties[manager.phase(i).channel()] == duty_of(
            value[i],
        ),
{
    lemma_six_writes(manager, value, before);
    lemma_phases_apart(manager, 0, 1);
    lemma_phases_apart(manager, 0, 2);
    lemma_phases_apart(manager, 1, 2);
}

/// The writes that were decided for three duties reach the direction pins and the
/// channels of the three phases and nothing else: a pin that is no direction pin of
/// the driver, and a channel that is no channel of it, hold what they held before.
pub proof fn lemma_other_outputs_keep(
    manager: PwmManager,
    value: Seq<Single>,
    before: Outputs,
    pin: u8,
    channel: Channel,
)
    requires
        value.len() == 3,
        forall|i: int| 0 <= i < 3 ==> pin != (#[trigger] manager.phase(i)).dir_pin(),
        forall|i: int| 0 <= i < 3 ==> channel != (#[trigger] manager.phase(i)).channel(),
    ensures
        outputs_after(manager, value, before).levels.dom().contains(pin)
            == before.levels.dom().contains(pin),
        outputs_after(manager, value, before).levels[pin] == before.levels[pin],
        outputs_after(manager, value, before).duties.dom().contains(channel)
            == before.duties.dom().contains(channel),
        outputs_after(manager, value, before).duties[channel] == before.duties[channel],
{
    lemma_six_writes(manager, value, before);
    assert(pin != manager.phase(0).dir_pin() && pin != manager.phase(1).dir_pin() && pin
        != manager.phase(2).dir_pin());
    assert(channel != manager.phase(0).channel() && channel != manager.phase(1).channel()
        && channel != manager.phase(2).channel());
}

/// Performing the writes for the same duties a second time changes nothing: the
/// outputs already hold what is written again.
pub proof fn lemma_repeat_changes_nothing(manager: PwmManager, value: Seq<Single>, before: Outputs)
    requires
        value.len() == 3,
    ensures
        outputs_after(manager, value, outputs_after(manager, value, before)) == outputs_after(
            manager,
            value,
            before,
        ),
{
    let once = outputs_after(manager, value, before);
    let twice = outputs_after(manager, value, once);
    lemma_six_writes(manager, value, before);
    lemma_six_writes(manager, value, once);
    assert(twice.levels =~= once.levels);
    assert(twice.duties =~= once.duties);
}

} // verus!
