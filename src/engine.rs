//! The decisions of the playback loop.
//!
//! The loop that owns the decoders polls at most one command per iteration, applies it
//! to the registry of playing sounds, steps every decoder once, and sleeps until the
//! earliest time a decoder asked to be stepped again. Running the loop, stepping the
//! decoders and sleeping are left to the caller; what is decided at each point is here.

use vstd::prelude::*;

verus! {

/// Longest time, in nanoseconds, between two iterations of the loop.
pub const IDLE_INTERVAL_NS: u64 = 10_000_000;

/// Time, in nanoseconds, taken off every sleep so that the loop wakes up early rather
/// than late.
pub const SAFETY_MARGIN_NS: u64 = 500_000;

/// Nanoseconds in one millisecond.
pub const NS_PER_MS: u64 = 1_000_000;

/// A control message for the playback loop.
pub enum Command<D, V> {
    /// Start playing a decoder under a new sound id.
    Play(usize, D),
    /// Stop every sound with this id.
    Stop(usize),
    /// Change the volume of the sound with this id.
    SetVolume(usize, V),
}

/// Hands out sound ids: each id is larger than every id handed out before it, so no
/// id is used twice.
pub struct SoundIds {
    next: usize,
}

impl SoundIds {
    /// The id that the next call of `allocate` hands out; every id handed out so far
    /// is smaller.
    pub closed spec fn next_id(&self) -> nat {
        self.next as nat
    }

    /// An allocator whose first id is 1.
    pub fn new() -> (r: SoundIds)
        ensures
            r.next_id() == 1,
    {
        SoundIds { next: 1 }
    }

    /// Hands out the next id, or `None` once every `usize` has been handed out.
    pub fn allocate(&mut self) -> (r: Option<usize>)
        ensures
            old(self).next_id() < usize::MAX ==> r == Some(old(self).next_id() as usize)
                && final(self).next_id() == old(self).next_id() + 1,
            old(self).next_id() >= usize::MAX ==> r is None && final(self).next_id() == old(self).next_id(),
    {
        if self.next < usize::MAX {
            let id = self.next;
            self.next = self.next + 1;
            Some(id)
        } else {
            None
        }
    }
}

/// The entries of `reg` whose id is not `id`, in order.
pub open spec fn without_id<D>(reg: Seq<(usize, D)>, id: usize) -> Seq<(usize, D)>
    decreases reg.len(),
{
    if reg.len() == 0 {
        Seq::empty()
    } else if reg.last().0 != id {
        without_id(reg.drop_last(), id).push(reg.last())
    } else {
        without_id(reg.drop_last(), id)
    }
}

/// Whether some entry of `reg` has the id `id`.
pub open spec fn has_id<D>(reg: Seq<(usize, D)>, id: usize) -> bool {
    exists|i: int| 0 <= i < reg.len() && #[trigger] reg[i].0 == id
}

/// The registry once `cmd` has been applied to `reg`.
pub open spec fn applied<D, V>(reg: Seq<(usize, D)>, cmd: Command<D, V>) -> Seq<(usize, D)> {
    match cmd {
        Command::Play(id, d) => reg.push((id, d)),
        Command::Stop(id) => without_id(reg, id),
        Command::SetVolume(_, _) => reg,
    }
}

/// What a volume change asks for: `None` when no entry of `reg` has the id, else the
/// position of the first entry with that id and the new volume.
pub open spec fn volume_target<D, V>(reg: Seq<(usize, D)>, cmd: Command<D, V>) -> Option<(usize, V)> {
    match cmd {
        Command::SetVolume(id, v) => if has_id(reg, id) {
            Some(
                (
                    choose|i: usize|
                        i < reg.len() && reg[i as int].0 == id && forall|j: int|
                            0 <= j < i ==> reg[j].0 != id,
                    v,
                ),
            )
        } else {
            None
        },
        _ => None,
    }
}

/// Applies one command to the registry of playing sounds.
///
/// `Play` appends the decoder under its id; `Stop` removes every entry with the id,
/// and does nothing when there is none; `SetVolume` leaves the registry as it is and
/// returns the position of the first entry with the id, together with the volume that
/// the caller is to give that decoder, or `None` when no entry has the id.
pub fn apply_command<D, V>(sounds: &mut Vec<(usize, D)>, command: Command<D, V>) -> (r: Option<(usize, V)>)
    ensures
        final(sounds)@ == applied(old(sounds)@, command),
        r == volume_target(old(sounds)@, command),
{
    match command {
        Command::Play(id, decoder) => {
            sounds.push((id, decoder));
            None
        },
        Command::Stop(id) => {
            remove_id(sounds, id);
            None
        },
        Command::SetVolume(id, value) => {
            match find_id(sounds, id) {
                Some(i) => Some((i, value)),
                None => None,
            }
        },
    }
}

/// Removes every entry with the id `id`, keeping the others in order.
fn remove_id<D>(sounds: &mut Vec<(usize, D)>, id: usize)
    ensures
        final(sounds)@ == without_id(old(sounds)@, id),
{
    let ghost orig = sounds@;
    let mut rest: Vec<(usize, D)> = Vec::new();
    std::mem::swap(&mut rest, sounds);
    let ghost mut k: int = 0;
    while rest.len() > 0
        invariant
            orig == old(sounds)@,
            0 <= k <= orig.len(),
            k + rest@.len() == orig.len(),
            rest@ == orig.subrange(k, orig.len() as int),
            sounds@ == without_id(orig.subrange(0, k), id),
        decreases rest@.len(),
    {
        let entry = rest.remove(0);
        assert(orig.subrange(0, k + 1).drop_last() =~= orig.subrange(0, k));
        assert(orig[k] == entry);
        if entry.0 != id {
            sounds.push(entry);
        }
        assert(sounds@ =~= without_id(orig.subrange(0, k + 1), id));
        proof {
            k = k + 1;
        }
        assert(rest@ =~= orig.subrange(k, orig.len() as int));
    }
    assert(orig.subrange(0, k) =~= orig);
}

/// The position of the first entry with the id `id`, if any.
fn find_id<D>(sounds: &Vec<(usize, D)>, id: usize) -> (r: Option<usize>)
    ensures
        r is None <==> !has_id(sounds@, id),
        r matches Some(i) ==> i < sounds@.len() && sounds@[i as int].0 == id && forall|j: int|
            0 <= j < i ==> sounds@[j].0 != id,
{
    let mut i: usize = 0;
    while i < sounds.len()
        invariant
            i <= sounds@.len(),
            forall|j: int| 0 <= j < i ==> sounds@[j].0 != id,
        decreases sounds@.len() - i,
    {
        if sounds[i].0 == id {
            return Some(i);
        }
        i = i + 1;
    }
    None
}

/// `a + b`, or the largest `u64` when the sum does not fit.
pub open spec fn sat_add(a: u64, b: u64) -> u64 {
    if a as int + b as int > u64::MAX {
        u64::MAX
    } else {
        (a + b) as u64
    }
}

/// The wake-up time when no decoder asks for an earlier one: the idle interval after
/// `now`.
pub fn initial_deadline(now: u64) -> (r: u64)
    ensures
        r == sat_add(now, IDLE_INTERVAL_NS),
{
    now.saturating_add(IDLE_INTERVAL_NS)
}

/// The wake-up time once a decoder, stepped at `now`, asked to be stepped again after
/// `delay` nanoseconds: the earlier of `deadline` and `now + delay`.
pub fn earlier_deadline(deadline: u64, now: u64, delay: u64) -> (r: u64)
    ensures
        r == if sat_add(now, delay) < deadline {
            sat_add(now, delay)
        } else {
            deadline
        },
        r <= deadline,
{
    let due = now.saturating_add(delay);
    if due < deadline {
        due
    } else {
        deadline
    }
}

/// How many whole milliseconds the loop sleeps at `now` to wake up by `deadline`: the
/// time left less the safety margin, rounded down, or `None` when that is negative.
pub fn sleep_millis(deadline: u64, now: u64) -> (r: Option<u64>)
    ensures
        r is None <==> (deadline as int) < now as int + SAFETY_MARGIN_NS as int,
        r matches Some(ms) ==> ms as int == (deadline as int - now as int - SAFETY_MARGIN_NS as int)
            / (NS_PER_MS as int),
{
    if deadline < now || deadline - now < SAFETY_MARGIN_NS {
        None
    } else {
        Some((deadline - now - SAFETY_MARGIN_NS) / NS_PER_MS)
    }
}

/// Relies on time::precise_time_ns: a reading of a nanosecond clock. Nothing is known
/// of its value.
#[verifier::external_body]
fn precise_time_ns() -> (r: u64) {
    time::precise_time_ns()
}

/// The wake-up time when no decoder asks for an earlier one, read from the clock now.
pub fn idle_deadline() -> (r: u64)
    ensures
        r >= IDLE_INTERVAL_NS,
{
    initial_deadline(precise_time_ns())
}

/// The wake-up time once a decoder, just stepped, asked to be stepped again after
/// `delay` nanoseconds, read from the clock now; never later than `deadline`.
pub fn deadline_after_step(deadline: u64, delay: u64) -> (r: u64)
    ensures
        r <= deadline,
        r == deadline || r >= delay,
{
    earlier_deadline(deadline, precise_time_ns(), delay)
}

/// How many whole milliseconds to sleep, read from the clock now, to wake up by
/// `deadline` with the safety margin to spare.
pub fn sleep_millis_until(deadline: u64) -> (r: Option<u64>)
    ensures
        r matches Some(ms) ==> ms as int * NS_PER_MS as int + SAFETY_MARGIN_NS as int <= deadline as int,
{
    let now = precise_time_ns();
    let r = sleep_millis(deadline, now);
    if let Some(ms) = r {
        assert(ms as int * NS_PER_MS as int <= deadline as int - now as int - SAFETY_MARGIN_NS as int)
            by (nonlinear_arith)
            requires
                ms as int == (deadline as int - now as int - SAFETY_MARGIN_NS as int) / (NS_PER_MS as int),
                deadline as int - now as int - SAFETY_MARGIN_NS as int >= 0,
                NS_PER_MS as int == 1_000_000,
        ;
    }
    r
}

/// Once a sound has been played and then stopped, no entry of the registry has its id,
/// and a later volume change for it changes nothing and reaches no decoder.
pub proof fn lemma_stop_after_play<D, V>(reg: Seq<(usize, D)>, id: usize, decoder: D, value: V)
    ensures
        !has_id(applied(applied(reg, Command::<D, V>::Play(id, decoder)), Command::<D, V>::Stop(id)), id),
        ({
            let stopped = applied(applied(reg, Command::<D, V>::Play(id, decoder)), Command::<D, V>::Stop(id));
            &&& applied(stopped, Command::<D, V>::SetVolume(id, value)) == stopped
            &&& volume_target(stopped, Command::<D, V>::SetVolume(id, value)) is None
        }),
{
    lemma_without_id_lacks(reg.push((id, decoder)), id);
}

/// The registry once every command of `cmds` has been applied to `reg`, in order.
pub open spec fn applied_all<D, V>(reg: Seq<(usize, D)>, cmds: Seq<Command<D, V>>) -> Seq<(usize, D)>
    decreases cmds.len(),
{
    if cmds.len() == 0 {
        reg
    } else {
        applied(applied_all(reg, cmds.drop_last()), cmds.last())
    }
}

/// Whether `cmd` plays a sound under the id `id`.
pub open spec fn plays_id<D, V>(cmd: Command<D, V>, id: usize) -> bool {
    match cmd {
        Command::Play(k, _) => k == id,
        _ => false,
    }
}

/// Once no entry has the id `id`, none has it after any further commands that do not
/// play under that id (sound ids are never reused), and a volume change for it reaches
/// no decoder at any point on the way.
pub proof fn lemma_stopped_stays_stopped<D, V>(
    reg: Seq<(usize, D)>,
    cmds: Seq<Command<D, V>>,
    id: usize,
    value: V,
)
    requires
        !has_id(reg, id),
        forall|i: int| 0 <= i < cmds.len() ==> !plays_id(#[trigger] cmds[i], id),
    ensures
        !has_id(applied_all(reg, cmds), id),
        volume_target(applied_all(reg, cmds), Command::<D, V>::SetVolume(id, value)) is None,
    decreases cmds.len(),
{
    if cmds.len() > 0 {
        let pre = cmds.drop_last();
        assert forall|i: int| 0 <= i < pre.len() implies !plays_id(#[trigger] pre[i], id) by {
            assert(pre[i] == cmds[i]);
        }
        lemma_stopped_stays_stopped(reg, pre, id, value);
        let before = applied_all(reg, pre);
        assert(!plays_id(cmds[cmds.len() - 1], id));
        match cmds.last() {
            Command::Play(k, d) => {
                assert forall|i: int| 0 <= i < before.push((k, d)).len() implies #[trigger] before.push(
                    (k, d),
                )[i].0 != id by {
                    if i < before.len() {
                        assert(before.push((k, d))[i] == before[i]);
                    }
                }
            },
            Command::Stop(k) => {
                lemma_without_id_keeps_absence(before, k, id);
            },
            Command::SetVolume(_, _) => {},
        }
    }
}

/// Removing entries never brings an id in.
pub proof fn lemma_without_id_keeps_absence<D>(reg: Seq<(usize, D)>, removed: usize, id: usize)
    requires
        !has_id(reg, id),
    ensures
        !has_id(without_id(reg, removed), id),
    decreases reg.len(),
{
    if reg.len() > 0 {
        let rest = reg.drop_last();
        assert forall|i: int| 0 <= i < rest.len() implies #[trigger] rest[i].0 != id by {
            assert(rest[i] == reg[i]);
        }
        lemma_without_id_keeps_absence(rest, removed, id);
        let w = without_id(rest, removed);
        assert(reg.last() == reg[reg.len() - 1]);
        if reg.last().0 != removed {
            assert forall|i: int| 0 <= i < w.push(reg.last()).len() implies #[trigger] w.push(reg.last())[i].0
                != id by {
                if i < w.len() {
                    assert(w.push(reg.last())[i] == w[i]);
                }
            }
        }
    }
}

/// No entry of `without_id(reg, id)` has the id `id`.
pub proof fn lemma_without_id_lacks<D>(reg: Seq<(usize, D)>, id: usize)
    ensures
        !has_id(without_id(reg, id), id),
    decreases reg.len(),
{
    if reg.len() > 0 {
        lemma_without_id_lacks(reg.drop_last(), id);
        let w = without_id(reg.drop_last(), id);
        if reg.last().0 != id {
            assert forall|i: int| 0 <= i < w.push(reg.last()).len() implies #[trigger] w.push(reg.last())[i].0
                != id by {
                if i < w.len() {
                    assert(w.push(reg.last())[i] == w[i]);
                }
            }
        }
    }
}

} // verus!
