//! Mixer that plays multiple sounds at the same time.
//!
//! The mixer is split in two halves. [`Mixer`] is the input side: it holds the sources
//! that were added and wait to be started. [`MixerSource`] is the output side: each
//! pull starts the waiting sources whose first sample lands on channel 0, then sums one
//! sample of every playing source.

use std::marker::PhantomData;
use vstd::arithmetic::div_mod::{lemma_fundamental_div_mod, lemma_fundamental_div_mod_converse};
use vstd::prelude::*;

use crate::sample::{clamp, Sample};
use crate::source::{SeekError, Source};

verus! {

/// Whether a source may start when `count` samples have been produced: its first
/// sample must land on the first channel of a frame.
pub open spec fn in_step<S, Src: Source<S>>(count: int, src: Src) -> bool {
    count % (src.spec_channels() as int) == 0
}

/// The sources of `p` that start when `count` samples have been produced, in order.
pub open spec fn promoted<S, Src: Source<S>>(p: Seq<Src>, count: int) -> Seq<Src>
    decreases p.len(),
{
    if p.len() == 0 {
        Seq::empty()
    } else if in_step::<S, Src>(count, p.last()) {
        promoted::<S, Src>(p.drop_last(), count).push(p.last())
    } else {
        promoted::<S, Src>(p.drop_last(), count)
    }
}

/// The sources of `p` that keep waiting when `count` samples have been produced, in order.
pub open spec fn waiting<S, Src: Source<S>>(p: Seq<Src>, count: int) -> Seq<Src>
    decreases p.len(),
{
    if p.len() == 0 {
        Seq::empty()
    } else if !in_step::<S, Src>(count, p.last()) {
        waiting::<S, Src>(p.drop_last(), count).push(p.last())
    } else {
        waiting::<S, Src>(p.drop_last(), count)
    }
}

/// The saturating sum, from zero and in order, of the next value of each source of `a`
/// that has one.
pub open spec fn mix_sum<S: Sample, Src: Source<S>>(a: Seq<Src>) -> S
    decreases a.len(),
{
    if a.len() == 0 {
        S::spec_zero()
    } else {
        match a.last().spec_next() {
            Some(v) => mix_sum::<S, Src>(a.drop_last()).spec_saturating_add(v),
            None => mix_sum::<S, Src>(a.drop_last()),
        }
    }
}

/// The sources of `a` that produced a value, each advanced by one pull, in order.
pub open spec fn survivors<S, Src: Source<S>>(a: Seq<Src>) -> Seq<Src>
    decreases a.len(),
{
    if a.len() == 0 {
        Seq::empty()
    } else {
        match a.last().spec_next() {
            Some(v) => survivors::<S, Src>(a.drop_last()).push(a.last().spec_rest()),
            None => survivors::<S, Src>(a.drop_last()),
        }
    }
}

/// A source with `n` channels that waits when `count` samples have been produced
/// starts exactly `(n - count % n) % n` samples later: it is in step then, and at no
/// count before.
pub proof fn lemma_start_delay<S, Src: Source<S>>(count: nat, src: Src)
    requires
        src.spec_channels() > 0,
    ensures
        ({
            let n = src.spec_channels() as int;
            let d = (n - (count as int) % n) % n;
            &&& 0 <= d < n
            &&& in_step::<S, Src>(count + d, src)
            &&& forall|j: int| 0 <= j < d ==> !#[trigger] in_step::<S, Src>(count + j, src)
        }),
{
    let n = src.spec_channels() as int;
    let c = count as int;
    let q = c / n;
    let r = c % n;
    lemma_fundamental_div_mod(c, n);
    assert(c == q * n + r) by (nonlinear_arith)
        requires
            c == n * (c / n) + (c % n),
            q == c / n,
            r == c % n,
    ;
    if r == 0 {
        lemma_fundamental_div_mod_converse(n, n, 1, 0);
    } else {
        lemma_fundamental_div_mod_converse(n - r, n, 0, n - r);
        assert(c + (n - r) == (q + 1) * n + 0) by (nonlinear_arith)
            requires
                c == q * n + r,
        ;
        lemma_fundamental_div_mod_converse(c + (n - r), n, q + 1, 0);
        assert forall|j: int| 0 <= j < n - r implies !#[trigger] in_step::<S, Src>(c + j, src) by {
            assert(c + j == q * n + (r + j));
            lemma_fundamental_div_mod_converse(c + j, n, q, r + j);
        }
    }
}

/// Each waiting source either starts or keeps waiting: it is among the promoted ones
/// when it is in step, and among the waiting ones otherwise.
pub proof fn lemma_pending_split<S, Src: Source<S>>(p: Seq<Src>, count: int, i: int)
    requires
        0 <= i < p.len(),
    ensures
        in_step::<S, Src>(count, p[i]) ==> promoted::<S, Src>(p, count).contains(p[i]),
        !in_step::<S, Src>(count, p[i]) ==> waiting::<S, Src>(p, count).contains(p[i]),
    decreases p.len(),
{
    if i < p.len() - 1 {
        lemma_pending_split::<S, Src>(p.drop_last(), count, i);
        let a = promoted::<S, Src>(p.drop_last(), count);
        let b = waiting::<S, Src>(p.drop_last(), count);
        if in_step::<S, Src>(count, p[i]) {
            let k = choose|k: int| 0 <= k < a.len() && a[k] == p[i];
            if in_step::<S, Src>(count, p.last()) {
                assert(a.push(p.last())[k] == p[i]);
            }
        } else {
            let k = choose|k: int| 0 <= k < b.len() && b[k] == p[i];
            if !in_step::<S, Src>(count, p.last()) {
                assert(b.push(p.last())[k] == p[i]);
            }
        }
    } else {
        let a = promoted::<S, Src>(p.drop_last(), count);
        let b = waiting::<S, Src>(p.drop_last(), count);
        if in_step::<S, Src>(count, p[i]) {
            assert(a.push(p.last())[a.len() as int] == p[i]);
        } else {
            assert(b.push(p.last())[b.len() as int] == p[i]);
        }
    }
}

/// The waiting queue after `k` pulls, the first made when `count` samples have been
/// produced, with nothing added in between.
pub open spec fn waiting_after<S, Src: Source<S>>(p: Seq<Src>, count: int, k: nat) -> Seq<Src>
    decreases k,
{
    if k == 0 {
        p
    } else {
        waiting::<S, Src>(waiting_after::<S, Src>(p, count, (k - 1) as nat), count + k - 1)
    }
}

/// Only sources in step start.
pub proof fn lemma_promoted_in_step<S, Src: Source<S>>(p: Seq<Src>, count: int)
    ensures
        forall|i: int|
            0 <= i < promoted::<S, Src>(p, count).len() ==> in_step::<S, Src>(
                count,
                #[trigger] promoted::<S, Src>(p, count)[i],
            ),
    decreases p.len(),
{
    if p.len() > 0 {
        lemma_promoted_in_step::<S, Src>(p.drop_last(), count);
        let a = promoted::<S, Src>(p.drop_last(), count);
        if in_step::<S, Src>(count, p.last()) {
            assert forall|i: int| 0 <= i < a.push(p.last()).len() implies in_step::<S, Src>(
                count,
                #[trigger] a.push(p.last())[i],
            ) by {
                if i < a.len() {
                    assert(a.push(p.last())[i] == a[i]);
                }
            }
        }
    }
}

/// A source that waits in the queue, with `n` channels, when `count` samples have been
/// produced, stays in the queue and does not start for exactly `d = (n - count % n) % n`
/// pulls, and starts on the pull after them, when nothing is added in between.
pub proof fn lemma_waits_exactly<S, Src: Source<S>>(p: Seq<Src>, count: nat, x: Src)
    requires
        p.contains(x),
        x.spec_channels() > 0,
    ensures
        ({
            let n = x.spec_channels() as int;
            let d = ((n - (count as int) % n) % n) as nat;
            &&& forall|j: nat|
                j <= d ==> (#[trigger] waiting_after::<S, Src>(p, count as int, j)).contains(x)
            &&& forall|j: nat|
                j < d ==> !promoted::<S, Src>(
                    #[trigger] waiting_after::<S, Src>(p, count as int, j),
                    count as int + j,
                ).contains(x)
            &&& promoted::<S, Src>(waiting_after::<S, Src>(p, count as int, d), count as int + d).contains(x)
        }),
{
    let n = x.spec_channels() as int;
    let d = ((n - (count as int) % n) % n) as nat;
    lemma_start_delay::<S, Src>(count, x);
    assert forall|j: nat| j <= d implies (#[trigger] waiting_after::<S, Src>(p, count as int, j)).contains(x) by {
        lemma_waits_through::<S, Src>(p, count, x, j);
    }
    assert forall|j: nat| j < d implies !promoted::<S, Src>(
        #[trigger] waiting_after::<S, Src>(p, count as int, j),
        count as int + j,
    ).contains(x) by {
        let q = waiting_after::<S, Src>(p, count as int, j);
        lemma_promoted_in_step::<S, Src>(q, count as int + j);
        assert(!in_step::<S, Src>(count as int + j, x));
    }
    let q = waiting_after::<S, Src>(p, count as int, d);
    lemma_waits_through::<S, Src>(p, count, x, d);
    let i = choose|i: int| 0 <= i < q.len() && q[i] == x;
    lemma_pending_split::<S, Src>(q, count as int + d, i);
}

/// A source not yet in step at any of the first `k` pulls is still in the queue after
/// them.
proof fn lemma_waits_through<S, Src: Source<S>>(p: Seq<Src>, count: nat, x: Src, k: nat)
    requires
        p.contains(x),
        x.spec_channels() > 0,
        forall|j: int| 0 <= j < k ==> !#[trigger] in_step::<S, Src>(count as int + j, x),
    ensures
        waiting_after::<S, Src>(p, count as int, k).contains(x),
    decreases k,
{
    if k > 0 {
        lemma_waits_through::<S, Src>(p, count, x, (k - 1) as nat);
        let q = waiting_after::<S, Src>(p, count as int, (k - 1) as nat);
        let i = choose|i: int| 0 <= i < q.len() && q[i] == x;
        assert(!in_step::<S, Src>(count as int + (k - 1), x));
        lemma_pending_split::<S, Src>(q, count as int + k - 1, i);
    }
}

/// Mixing two 16-bit sources gives the sum of their next values clamped to the range
/// of the type: a sum that is too large or too small never wraps.
pub proof fn lemma_mix_two_saturates<Src: Source<i16>>(a: Src, b: Src, x: i16, y: i16)
    requires
        a.spec_next() == Some(x),
        b.spec_next() == Some(y),
    ensures
        mix_sum::<i16, Src>(seq![a, b]) as int == clamp(x as int + y as int, i16::MIN as int, i16::MAX as int),
        survivors::<i16, Src>(seq![a, b]) == seq![a.spec_rest(), b.spec_rest()],
{
    assert(seq![a, b].drop_last() =~= seq![a]);
    assert(seq![a].drop_last() =~= Seq::<Src>::empty());
    assert(seq![a, b].last() == b);
    assert(seq![a].last() == a);
    assert(mix_sum::<i16, Src>(Seq::<Src>::empty()) == 0i16);
    assert(mix_sum::<i16, Src>(seq![a]) == 0i16.spec_saturating_add(x));
    assert(mix_sum::<i16, Src>(seq![a]) == x);
    assert(mix_sum::<i16, Src>(seq![a, b]) == x.spec_saturating_add(y));
    assert(survivors::<i16, Src>(Seq::<Src>::empty()) == Seq::<Src>::empty());
    assert(survivors::<i16, Src>(seq![a]) == Seq::<Src>::empty().push(a.spec_rest()));
    assert(Seq::<Src>::empty().push(a.spec_rest()) =~= seq![a.spec_rest()]);
    assert(survivors::<i16, Src>(seq![a, b]) == seq![a.spec_rest()].push(b.spec_rest()));
    assert(survivors::<i16, Src>(seq![a, b]) =~= seq![a.spec_rest(), b.spec_rest()]);
}

/// The input of the mixer: the sources that were added and are not playing yet.
pub struct Mixer<S, Src> {
    has_pending: bool,
    pending_sources: Vec<Src>,
    channels: u16,
    sample_rate: u32,
    sample: PhantomData<S>,
}

/// The output of the mixer: the sources that are playing, and the number of samples
/// produced so far.
pub struct MixerSource<S, Src> {
    current_sources: Vec<Src>,
    sample_count: usize,
    channels: u16,
    sample_rate: u32,
    sample: PhantomData<S>,
}

/// Builds a new mixer whose output has `channels` channels at `sample_rate`.
///
/// Sources are added to the returned [`Mixer`], which converts them to that format;
/// samples are pulled from the returned [`MixerSource`].
pub fn mixer<S: Sample, Src: Source<S>>(channels: u16, sample_rate: u32) -> (r: (
    Mixer<S, Src>,
    MixerSource<S, Src>,
))
    requires
        channels > 0,
    ensures
        r.0.wf(),
        r.0.pending() == Seq::<Src>::empty(),
        r.0.spec_channels() == channels,
        r.0.spec_sample_rate() == sample_rate,
        r.1.active() == Seq::<Src>::empty(),
        r.1.produced() == 0,
        r.1.spec_channels() == channels,
        r.1.spec_sample_rate() == sample_rate,
{
    let input = Mixer {
        has_pending: false,
        pending_sources: Vec::new(),
        channels,
        sample_rate,
        sample: PhantomData,
    };
    let output = MixerSource {
        current_sources: Vec::new(),
        sample_count: 0,
        channels,
        sample_rate,
        sample: PhantomData,
    };
    (input, output)
}

impl<S: Sample, Src: Source<S>> Mixer<S, Src> {
    /// The sources waiting to start, in the order they were added.
    pub closed spec fn pending(&self) -> Seq<Src> {
        self.pending_sources@
    }

    pub closed spec fn spec_channels(&self) -> u16 {
        self.channels
    }

    pub closed spec fn spec_sample_rate(&self) -> u32 {
        self.sample_rate
    }

    /// The mixer has at least one channel, the "has pending" flag tells whether any
    /// source waits, and every waiting source has the mixer's channel count and sample
    /// rate.
    pub closed spec fn wf(&self) -> bool {
        &&& self.channels > 0
        &&& self.has_pending == (self.pending_sources@.len() > 0)
        &&& forall|i: int|
            0 <= i < self.pending_sources@.len() ==> #[trigger] self.pending_sources@[i].spec_channels()
                == self.channels && self.pending_sources@[i].spec_sample_rate() == self.sample_rate
    }

    /// Adds a new source to mix with the others, converted to the mixer's channel count
    /// and sample rate. It starts playing at the first pull where the number of samples
    /// produced is a multiple of that channel count.
    pub fn add(&mut self, source: Src)
        requires
            old(self).wf(),
        ensures
            final(self).wf(),
            final(self).pending().len() == old(self).pending().len() + 1,
            final(self).pending().drop_last() == old(self).pending(),
            source.spec_converts_to(final(self).pending().last()),
            final(self).pending().last().spec_channels() == old(self).spec_channels(),
            final(self).pending().last().spec_sample_rate() == old(self).spec_sample_rate(),
            final(self).spec_channels() == old(self).spec_channels(),
            final(self).spec_sample_rate() == old(self).spec_sample_rate(),
    {
        let uniform_source = source.uniform(self.channels, self.sample_rate);
        self.pending_sources.push(uniform_source);
        self.has_pending = true;
        assert(self.pending_sources@.drop_last() =~= old(self).pending_sources@);
    }

    /// Whether any source waits to start.
    pub fn has_pending(&self) -> (r: bool)
        requires
            self.wf(),
        ensures
            r == (self.pending().len() > 0),
    {
        self.has_pending
    }
}

impl<S: Sample, Src: Source<S>> MixerSource<S, Src> {
    /// The sources that are playing, in the order they started.
    pub closed spec fn active(&self) -> Seq<Src> {
        self.current_sources@
    }

    /// The number of samples produced so far.
    pub closed spec fn produced(&self) -> nat {
        self.sample_count as nat
    }

    pub closed spec fn spec_channels(&self) -> u16 {
        self.channels
    }

    pub closed spec fn spec_sample_rate(&self) -> u32 {
        self.sample_rate
    }

    /// Number of interleaved channels of the output.
    pub fn channels(&self) -> (r: u16)
        ensures
            r == self.spec_channels(),
    {
        self.channels
    }

    /// Sample rate of the output.
    pub fn sample_rate(&self) -> (r: u32)
        ensures
            r == self.spec_sample_rate(),
    {
        self.sample_rate
    }

    /// The number of samples produced so far.
    pub fn sample_count(&self) -> (r: usize)
        ensures
            r == self.produced(),
    {
        self.sample_count
    }

    /// The output has no known frame length.
    pub fn current_frame_len(&self) -> (r: Option<usize>)
        ensures
            r is None,
    {
        None
    }

    /// The output has no known total duration.
    pub fn total_duration(&self) -> (r: Option<std::time::Duration>)
        ensures
            r is None,
    {
        None
    }

    /// Seeking is not supported: no playback position is kept for the mixed sources.
    pub fn try_seek(&mut self, pos: std::time::Duration) -> (r: Result<(), SeekError>)
        ensures
            r == Err::<(), SeekError>(SeekError::NotSupported { underlying_source: "MixerSource" }),
            *final(self) == *old(self),
    {
        Err(SeekError::NotSupported { underlying_source: "MixerSource" })
    }

    /// Produces the next sample of the mix, or `None` once no source is playing.
    ///
    /// First the waiting sources of `input` that are in step with the samples produced
    /// so far start playing, after those already playing; then the count of samples
    /// produced goes up by one; then one value is pulled from every playing source,
    /// the exhausted ones are dropped, and the values are summed with saturation. The
    /// result is `None` exactly when no source is left playing, whatever still waits
    /// in `input`.
    pub fn next(&mut self, input: &mut Mixer<S, Src>) -> (r: Option<S>)
        requires
            old(input).wf(),
            old(input).spec_channels() == old(self).spec_channels(),
            old(input).spec_sample_rate() == old(self).spec_sample_rate(),
            old(self).produced() < usize::MAX,
        ensures
            final(input).wf(),
            final(input).pending() == waiting::<S, Src>(old(input).pending(), old(self).produced() as int),
            final(self).active() == survivors::<S, Src>(
                old(self).active() + promoted::<S, Src>(old(input).pending(), old(self).produced() as int),
            ),
            r == (if final(self).active().len() == 0 {
                None
            } else {
                Some(mix_sum::<S, Src>(
                    old(self).active() + promoted::<S, Src>(old(input).pending(), old(self).produced() as int),
                ))
            }),
            final(self).produced() == old(self).produced() + 1,
            final(self).spec_channels() == old(self).spec_channels(),
            final(self).spec_sample_rate() == old(self).spec_sample_rate(),
            final(input).spec_channels() == old(input).spec_channels(),
            final(input).spec_sample_rate() == old(input).spec_sample_rate(),
    {
        if input.has_pending {
            self.start_pending_sources(input);
        } else {
            assert(self.current_sources@ + promoted::<S, Src>(input.pending_sources@, self.sample_count as int)
                =~= self.current_sources@);
        }
        self.advance()
    }

    /// The part of a pull that follows the starting of waiting sources: the count of
    /// samples produced goes up by one, one value is pulled from every playing source,
    /// the exhausted ones are dropped, and the values are summed with saturation. The
    /// result is `None` exactly when no source is left playing.
    pub fn advance(&mut self) -> (r: Option<S>)
        requires
            old(self).produced() < usize::MAX,
        ensures
            final(self).active() == survivors::<S, Src>(old(self).active()),
            r == (if final(self).active().len() == 0 {
                None
            } else {
                Some(mix_sum::<S, Src>(old(self).active()))
            }),
            final(self).produced() == old(self).produced() + 1,
            final(self).spec_channels() == old(self).spec_channels(),
            final(self).spec_sample_rate() == old(self).spec_sample_rate(),
    {
        self.sample_count = self.sample_count + 1;
        let sum = self.sum_current_sources();
        if self.current_sources.len() == 0 {
            None
        } else {
            Some(sum)
        }
    }

    /// Moves the sources of `input` that are in step with the samples produced so far
    /// into the playing set, after those already playing; the others keep waiting, in
    /// order. This is the first part of a pull, and the only one that touches `input`.
    pub fn start_pending_sources(&mut self, input: &mut Mixer<S, Src>)
        requires
            old(input).wf(),
            old(input).spec_channels() == old(self).spec_channels(),
            old(input).spec_sample_rate() == old(self).spec_sample_rate(),
        ensures
            final(self).active() == old(self).active() + promoted::<S, Src>(
                old(input).pending(),
                old(self).produced() as int,
            ),
            final(input).pending() == waiting::<S, Src>(old(input).pending(), old(self).produced() as int),
            final(input).wf(),
            final(self).produced() == old(self).produced(),
            final(self).spec_channels() == old(self).spec_channels(),
            final(self).spec_sample_rate() == old(self).spec_sample_rate(),
            final(input).spec_channels() == old(input).spec_channels(),
            final(input).spec_sample_rate() == old(input).spec_sample_rate(),
    {
        let ghost orig = input.pending_sources@;
        let ghost start = self.current_sources@;
        let ghost c = self.sample_count as int;
        let mut pending: Vec<Src> = Vec::new();
        std::mem::swap(&mut pending, &mut input.pending_sources);
        let mut still_pending: Vec<Src> = Vec::new();
        let ghost mut k: int = 0;
        while pending.len() > 0
            invariant
                orig == old(input).pending_sources@,
                input.channels > 0,
                forall|i: int|
                    0 <= i < orig.len() ==> #[trigger] orig[i].spec_channels() == input.channels
                        && orig[i].spec_sample_rate() == input.sample_rate,
                0 <= k <= orig.len(),
                k + pending@.len() == orig.len(),
                pending@ == orig.subrange(k, orig.len() as int),
                self.current_sources@ == start + promoted::<S, Src>(orig.subrange(0, k), c),
                still_pending@ == waiting::<S, Src>(orig.subrange(0, k), c),
                forall|i: int|
                    0 <= i < still_pending@.len() ==> #[trigger] still_pending@[i].spec_channels()
                        == input.channels && still_pending@[i].spec_sample_rate() == input.sample_rate,
                c == self.sample_count as int,
                self.channels == old(self).channels,
                self.sample_rate == old(self).sample_rate,
                input.channels == old(input).channels,
                input.sample_rate == old(input).sample_rate,
            decreases pending@.len(),
        {
            let source = pending.remove(0);
            let ghost pre = orig.subrange(0, k);
            assert(orig.subrange(0, k + 1).drop_last() =~= pre);
            assert(orig[k] == source);
            let ch = source.channels();
            assert(ch > 0);
            if self.sample_count % (ch as usize) == 0 {
                self.current_sources.push(source);
                assert(self.current_sources@ =~= start + promoted::<S, Src>(orig.subrange(0, k + 1), c));
                assert(still_pending@ =~= waiting::<S, Src>(orig.subrange(0, k + 1), c));
            } else {
                still_pending.push(source);
                assert(self.current_sources@ =~= start + promoted::<S, Src>(orig.subrange(0, k + 1), c));
                assert(still_pending@ =~= waiting::<S, Src>(orig.subrange(0, k + 1), c));
            }
            proof {
                k = k + 1;
            }
            assert(pending@ =~= orig.subrange(k, orig.len() as int));
        }
        assert(orig.subrange(0, k) =~= orig);
        input.has_pending = still_pending.len() > 0;
        input.pending_sources = still_pending;
    }

    /// Pulls one value from every playing source, sums the values, and drops the
    /// sources that are exhausted.
    fn sum_current_sources(&mut self) -> (r: S)
        ensures
            r == mix_sum::<S, Src>(old(self).current_sources@),
            final(self).current_sources@ == survivors::<S, Src>(old(self).current_sources@),
            final(self).sample_count == old(self).sample_count,
            final(self).channels == old(self).channels,
            final(self).sample_rate == old(self).sample_rate,
    {
        let ghost orig = self.current_sources@;
        let mut current: Vec<Src> = Vec::new();
        std::mem::swap(&mut current, &mut self.current_sources);
        let mut sum = S::zero_value();
        let ghost mut k: int = 0;
        while current.len() > 0
            invariant
                orig == old(self).current_sources@,
                0 <= k <= orig.len(),
                k + current@.len() == orig.len(),
                current@ == orig.subrange(k, orig.len() as int),
                sum == mix_sum::<S, Src>(orig.subrange(0, k)),
                self.current_sources@ == survivors::<S, Src>(orig.subrange(0, k)),
                self.sample_count == old(self).sample_count,
                self.channels == old(self).channels,
                self.sample_rate == old(self).sample_rate,
            decreases current@.len(),
        {
            let mut source = current.remove(0);
            let ghost pre = orig.subrange(0, k);
            assert(orig.subrange(0, k + 1).drop_last() =~= pre);
            assert(orig[k] == source);
            match source.next() {
                Some(value) => {
                    sum = sum.saturating_add(value);
                    self.current_sources.push(source);
                },
                None => {},
            }
            assert(self.current_sources@ =~= survivors::<S, Src>(orig.subrange(0, k + 1)));
            proof {
                k = k + 1;
            }
            assert(current@ =~= orig.subrange(k, orig.len() as int));
        }
        assert(orig.subrange(0, k) =~= orig);
        sum
    }
}

} // verus!
