//! The capability set of a sample producer, and a source backed by a buffer.

use vstd::arithmetic::div_mod::{
    lemma_div_by_multiple, lemma_div_is_ordered, lemma_fundamental_div_mod,
    lemma_fundamental_div_mod_converse,
};
use vstd::prelude::*;

use crate::sample::Sample;

verus! {

/// A producer of channel-interleaved samples.
///
/// Its behaviour is described one pull at a time: `spec_next` is what the next pull
/// yields (`None` at the end of the sequence), and `spec_rest` is the source after
/// that pull.
pub trait Source<S>: Sized {
    /// Number of interleaved channels.
    spec fn spec_channels(&self) -> u16;

    /// Samples per second and per channel.
    spec fn spec_sample_rate(&self) -> u32;

    /// The value that the next pull yields.
    spec fn spec_next(&self) -> Option<S>;

    /// The source once the next pull has been made.
    spec fn spec_rest(&self) -> Self;

    /// Whether `r` plays what `self` plays, converted to the channel count and the
    /// sample rate of `r`.
    spec fn spec_converts_to(&self, r: Self) -> bool;

    fn channels(&self) -> (r: u16)
        ensures
            r == self.spec_channels(),
    ;

    /// Converts the source to `channels` channels at `sample_rate`.
    fn uniform(self, channels: u16, sample_rate: u32) -> (r: Self)
        ensures
            r.spec_channels() == channels,
            r.spec_sample_rate() == sample_rate,
            self.spec_converts_to(r),
    ;

    fn sample_rate(&self) -> (r: u32)
        ensures
            r == self.spec_sample_rate(),
    ;

    fn next(&mut self) -> (r: Option<S>)
        ensures
            r == old(self).spec_next(),
            *final(self) == old(self).spec_rest(),
    ;
}

/// Sample `k` of `d`, with frames of `from` channels, rewritten with frames of `to`
/// channels: the first channels are kept, a single channel is repeated on the second,
/// and any further channel is silent.
pub open spec fn rechannel_at<S: Sample>(d: Seq<S>, from: nat, to: nat, k: int) -> S {
    let j = k / to as int;
    let c = k % to as int;
    if c < from {
        d[j * from + c]
    } else if c == 1 {
        d[j * from]
    } else {
        S::spec_zero()
    }
}

/// The complete frames of `d`, of `from` channels each, rewritten with `to` channels
/// each; nothing when either count is zero or the result would not fit in memory.
pub open spec fn rechannel<S: Sample>(d: Seq<S>, from: nat, to: nat) -> Seq<S> {
    if from == 0 || to == 0 || (d.len() as int / from as int) * to > usize::MAX {
        Seq::empty()
    } else {
        Seq::new(((d.len() as int / from as int) * to) as nat, |k: int| rechannel_at(d, from, to, k))
    }
}

/// Rewriting complete frames with the channel count they already have keeps every
/// sample.
pub proof fn lemma_rechannel_same<S: Sample>(d: Seq<S>, n: nat)
    requires
        n > 0,
        d.len() as int % n as int == 0,
        d.len() <= usize::MAX,
    ensures
        rechannel(d, n, n) == d,
{
    lemma_fundamental_div_mod(d.len() as int, n as int);
    assert forall|k: int| 0 <= k < d.len() implies #[trigger] rechannel_at(d, n, n, k) == d[k] by {
        lemma_fundamental_div_mod(k, n as int);
        assert((k / n as int) * n + k % n as int == k) by (nonlinear_arith)
            requires
                k == n * (k / n as int) + k % n as int,
        ;
    }
    assert((d.len() as int / n as int) * n == d.len()) by (nonlinear_arith)
        requires
            d.len() == n * (d.len() as int / n as int) + d.len() as int % n as int,
            d.len() as int % n as int == 0,
    ;
    assert(rechannel(d, n, n) =~= d);
}

/// Number of frames that `n` frames at rate `from` give at rate `to`: the first frame
/// is kept, and the last one that the span of the input reaches.
pub open spec fn resampled_frames(n: nat, from: nat, to: nat) -> nat {
    if n == 0 {
        0
    } else {
        (((n - 1) * to) as int / from as int + 1) as nat
    }
}

/// Sample `k` at rate `to` of `d`, with frames of `ch` channels at rate `from`: the
/// input frames on both sides of the output frame's time, linearly interpolated.
pub open spec fn resample_at<S: Sample>(d: Seq<S>, ch: nat, from: nat, to: nat, k: int) -> S {
    let j = k / ch as int;
    let c = k % ch as int;
    let num = j * from;
    let i = num / to as int;
    let frac = num % to as int;
    if frac == 0 {
        d[i * ch + c]
    } else {
        S::spec_lerp(d[i * ch + c], d[(i + 1) * ch + c], frac as nat, to)
    }
}

/// The complete frames of `d`, of `ch` channels at rate `from`, converted to rate
/// `to`; `d` itself when the rates are equal, and nothing when a count or rate is
/// zero or the result would not fit in memory.
pub open spec fn resample<S: Sample>(d: Seq<S>, ch: nat, from: nat, to: nat) -> Seq<S> {
    let m = resampled_frames((d.len() as int / ch as int) as nat, from, to);
    if from == to {
        d
    } else if ch == 0 || from == 0 || to == 0 || m * ch > usize::MAX {
        Seq::empty()
    } else {
        Seq::new(m * ch, |k: int| resample_at(d, ch, from, to, k))
    }
}

/// The samples of `d`, with frames of `from` channels, rewritten with frames of `to`
/// channels.
fn rechannel_vec<S: Sample>(d: &Vec<S>, from: u16, to: u16) -> (r: Vec<S>)
    ensures
        r@ == rechannel(d@, from as nat, to as nat),
{
    let mut out: Vec<S> = Vec::new();
    if from == 0 || to == 0 {
        return out;
    }
    let nf: usize = d.len() / (from as usize);
    assert(nf as int * to as int <= usize::MAX as int * 65535) by (nonlinear_arith)
        requires
            nf <= usize::MAX,
            to <= 65535,
    ;
    if (nf as u128) * (to as u128) > usize::MAX as u128 {
        return out;
    }
    let ghost len = d@.len() as int;
    let ghost fr = from as int;
    let ghost t = to as int;
    assert(len <= usize::MAX) by {
        assert(d@.len() == d.len());
    }
    proof {
        lemma_fundamental_div_mod(len, fr);
    }
    let mut j: usize = 0;
    while j < nf
        invariant
            fr > 0,
            t > 0,
            len == d@.len(),
            len <= usize::MAX,
            fr == from,
            t == to,
            nf == len / fr,
            len == fr * (len / fr) + len % fr,
            0 <= len % fr,
            j <= nf,
            out@.len() == j * t,
            forall|k: int| 0 <= k < j * t ==> #[trigger] out@[k] == rechannel_at(d@, fr as nat, t as nat, k),
        decreases nf - j,
    {
        assert((j + 1) * fr <= nf * fr && j * fr + fr == (j + 1) * fr && nf * fr == fr * nf) by (nonlinear_arith)
            requires
                j + 1 <= nf,
                fr > 0,
        ;
        assert(j * fr + fr <= len);
        let base: usize = j * (from as usize);
        let mut c: u16 = 0;
        while c < to
            invariant
                fr > 0,
                t > 0,
                len == d@.len(),
                len <= usize::MAX,
                fr == from,
                t == to,
                j < nf,
                base == j * fr,
                base + fr <= len,
                c <= t,
                out@.len() == j * t + c,
                forall|k: int|
                    0 <= k < j * t + c ==> #[trigger] out@[k] == rechannel_at(d@, fr as nat, t as nat, k),
            decreases t - c,
        {
            let v = if c < from {
                d[base + c as usize]
            } else if c == 1 {
                d[base]
            } else {
                S::zero_value()
            };
            proof {
                lemma_fundamental_div_mod_converse(j * t + c, t, j as int, c as int);
            }
            out.push(v);
            c = c + 1;
        }
        assert(j * t + t == (j + 1) * t) by (nonlinear_arith);
        j = j + 1;
    }
    assert(out@ =~= rechannel(d@, from as nat, to as nat));
    out
}

/// The samples of `d`, with frames of `ch` channels at rate `from`, converted to rate
/// `to`.
fn resample_vec<S: Sample>(d: &Vec<S>, ch: u16, from: u32, to: u32) -> (r: Vec<S>)
    requires
        from != to,
    ensures
        r@ == resample(d@, ch as nat, from as nat, to as nat),
{
    let mut out: Vec<S> = Vec::new();
    if ch == 0 || from == 0 || to == 0 {
        return out;
    }
    let n: usize = d.len() / (ch as usize);
    assert(n as int == d@.len() as int / ch as int);
    if n == 0 {
        assert(resampled_frames(0, from as nat, to as nat) == 0);
        assert(((d@.len() as int / ch as int) as nat) == 0);
        assert(resample(d@, ch as nat, from as nat, to as nat).len() == 0);
        assert(out@ =~= resample(d@, ch as nat, from as nat, to as nat));
        return out;
    }
    assert((n as int - 1) * to as int <= usize::MAX as int * 4294967295) by (nonlinear_arith)
        requires
            1 <= n <= usize::MAX,
            to <= 4294967295,
    ;
    let q: u128 = ((n as u128 - 1) * (to as u128)) / (from as u128);
    assert(q as int <= (n as int - 1) * to as int) by {
        lemma_div_is_ordered((n as int - 1) * to as int, (n as int - 1) * to as int, from as int);
        vstd::arithmetic::div_mod::lemma_div_is_ordered_by_denominator((n as int - 1) * to as int, 1, from as int);
    }
    let m128: u128 = q + 1;
    assert(m128 as int * ch as int <= (usize::MAX as int * 4294967295 + 1) * 65535) by (nonlinear_arith)
        requires
            m128 <= usize::MAX as int * 4294967295 + 1,
            ch <= 65535,
    ;
    assert(m128 == resampled_frames(n as nat, from as nat, to as nat));
    if m128 * (ch as u128) > usize::MAX as u128 {
        assert(out@ =~= resample(d@, ch as nat, from as nat, to as nat));
        return out;
    }
    assert(m128 <= m128 * ch as int) by (nonlinear_arith)
        requires
            ch >= 1,
            m128 >= 0,
    ;
    let m: usize = m128 as usize;
    let ghost len = d@.len() as int;
    let ghost w = ch as int;
    let ghost f = from as int;
    let ghost t = to as int;
    let ghost span = (n - 1) * t;
    assert(len <= usize::MAX) by {
        assert(d@.len() == d.len());
    }
    proof {
        lemma_fundamental_div_mod(len, w);
        lemma_fundamental_div_mod(span, f);
        assert(m == resampled_frames(n as nat, f as nat, t as nat));
    }
    let mut j: usize = 0;
    while j < m
        invariant
            w > 0,
            f > 0,
            t > 0,
            len == d@.len(),
            len <= usize::MAX,
            w == ch,
            f == from,
            t == to,
            n == len / w,
            n >= 1,
            len == w * (len / w) + len % w,
            0 <= len % w,
            span == (n - 1) * t,
            span == f * (span / f) + span % f,
            0 <= span % f,
            m == q + 1,
            q == span / f,
            j <= m,
            out@.len() == j * w,
            forall|k: int|
                0 <= k < j * w ==> #[trigger] out@[k] == resample_at(d@, w as nat, f as nat, t as nat, k),
        decreases m - j,
    {
        assert(j as int * from as int <= usize::MAX as int * 4294967295) by (nonlinear_arith)
            requires
                j <= usize::MAX,
                from <= 4294967295,
        ;
        let num: u128 = (j as u128) * (from as u128);
        let i128: u128 = num / (to as u128);
        let frac: u128 = num % (to as u128);
        proof {
            assert(num <= span) by (nonlinear_arith)
                requires
                    num == j * f,
                    j <= q,
                    span == f * q + span % f,
                    0 <= span % f,
                    f > 0,
            ;
            lemma_div_is_ordered(num as int, span, t);
            lemma_div_by_multiple(n - 1, t);
            lemma_fundamental_div_mod(num as int, t);
            if frac != 0 && i128 == n - 1 {
                assert(num as int == t * (n - 1) + frac);
                assert(t * (n - 1) == span) by (nonlinear_arith)
                    requires
                        span == (n - 1) * t,
                ;
            }
            assert((i128 + 1) * w <= n * w && i128 * w + w == (i128 + 1) * w && n * w == w * n) by (nonlinear_arith)
                requires
                    i128 + 1 <= n,
                    w > 0,
            ;
            if frac != 0 {
                assert((i128 + 2) * w <= n * w && i128 * w + 2 * w == (i128 + 2) * w) by (nonlinear_arith)
                    requires
                        i128 + 2 <= n,
                        w > 0,
                ;
            }
        }
        assert(i128 * w + w <= len);
        let i: usize = i128 as usize;
        let base: usize = i * (ch as usize);
        let mut c: u16 = 0;
        while c < ch
            invariant
                w > 0,
                t > 0,
                len == d@.len(),
                len <= usize::MAX,
                w == ch,
                f == from,
                t == to,
                j < m,
                num as int == j * f,
                i == num as int / t,
                frac == num as int % t,
                frac < t,
                base == i * w,
                base + w <= len,
                frac != 0 ==> base + 2 * w <= len,
                c <= w,
                out@.len() == j * w + c,
                forall|k: int|
                    0 <= k < j * w + c ==> #[trigger] out@[k] == resample_at(d@, w as nat, f as nat, t as nat, k),
            decreases w - c,
        {
            let v = if frac == 0 {
                d[base + c as usize]
            } else {
                S::lerp(d[base + c as usize], d[base + ch as usize + c as usize], frac as u32, to)
            };
            proof {
                lemma_fundamental_div_mod_converse(j * w + c, w, j as int, c as int);
                assert((i + 1) * w + c == base + w + c) by (nonlinear_arith)
                    requires
                        base == i * w,
                ;
            }
            out.push(v);
            c = c + 1;
        }
        assert(j * w + w == (j + 1) * w) by (nonlinear_arith);
        j = j + 1;
    }
    assert(out@ =~= resample(d@, ch as nat, from as nat, to as nat));
    out
}

/// The reason a seek failed.
pub enum SeekError {
    /// The source cannot seek at all.
    NotSupported { underlying_source: &'static str },
}

/// A finite source that plays the samples of a buffer in order.
pub struct SamplesBuffer<S> {
    channels: u16,
    sample_rate: u32,
    data: Vec<S>,
    pos: usize,
}

impl<S: Sample> SamplesBuffer<S> {
    /// The samples that are still to be played.
    pub closed spec fn remaining(&self) -> Seq<S> {
        if self.pos <= self.data@.len() {
            self.data@.subrange(self.pos as int, self.data@.len() as int)
        } else {
            Seq::empty()
        }
    }

    /// Builds a source that plays `data`, interleaved over `channels` channels.
    pub fn new(channels: u16, sample_rate: u32, data: Vec<S>) -> (r: Self)
        ensures
            r.spec_channels() == channels,
            r.spec_sample_rate() == sample_rate,
            r.remaining() == data@,
    {
        let r = SamplesBuffer { channels, sample_rate, data, pos: 0 };
        assert(r.remaining() =~= r.data@);
        r
    }

    /// A copy of the samples that are still to be played.
    fn remaining_vec(&self) -> (r: Vec<S>)
        ensures
            r@ == self.remaining(),
    {
        let mut out: Vec<S> = Vec::new();
        let mut i: usize = self.pos;
        if i < self.data.len() {
            while i < self.data.len()
                invariant
                    self.pos <= i <= self.data@.len(),
                    out@ == self.data@.subrange(self.pos as int, i as int),
                decreases self.data@.len() - i,
            {
                out.push(self.data[i]);
                i = i + 1;
                assert(out@ =~= self.data@.subrange(self.pos as int, i as int));
            }
        } else {
            assert(out@ =~= self.remaining());
        }
        out
    }
}

impl<S: Sample> Source<S> for SamplesBuffer<S> {
    closed spec fn spec_channels(&self) -> u16 {
        self.channels
    }

    closed spec fn spec_sample_rate(&self) -> u32 {
        self.sample_rate
    }

    open spec fn spec_next(&self) -> Option<S> {
        if self.remaining().len() > 0 {
            Some(self.remaining()[0])
        } else {
            None
        }
    }

    closed spec fn spec_rest(&self) -> Self {
        if self.pos < self.data.len() {
            SamplesBuffer { pos: (self.pos + 1) as usize, ..*self }
        } else {
            *self
        }
    }

    open spec fn spec_converts_to(&self, r: Self) -> bool {
        r.remaining() == rechannel(
            resample(
                self.remaining(),
                self.spec_channels() as nat,
                self.spec_sample_rate() as nat,
                r.spec_sample_rate() as nat,
            ),
            self.spec_channels() as nat,
            r.spec_channels() as nat,
        )
    }

    fn channels(&self) -> (r: u16) {
        self.channels
    }

    fn uniform(self, channels: u16, sample_rate: u32) -> (r: Self) {
        let rest = self.remaining_vec();
        let resampled = if self.sample_rate == sample_rate {
            rest
        } else {
            resample_vec(&rest, self.channels, self.sample_rate, sample_rate)
        };
        let data = rechannel_vec(&resampled, self.channels, channels);
        let r = SamplesBuffer { channels, sample_rate, data, pos: 0 };
        assert(r.remaining() =~= r.data@);
        r
    }

    fn sample_rate(&self) -> (r: u32) {
        self.sample_rate
    }

    fn next(&mut self) -> (r: Option<S>) {
        if self.pos < self.data.len() {
            let v = self.data[self.pos];
            self.pos = self.pos + 1;
            Some(v)
        } else {
            None
        }
    }
}

/// A pull from a buffer leaves the samples after the first one, and keeps the
/// buffer's channel count and sample rate.
pub broadcast proof fn lemma_buffer_pull<S: Sample>(b: SamplesBuffer<S>)
    ensures
        (#[trigger] b.spec_rest()).remaining() == (if b.remaining().len() > 0 {
            b.remaining().drop_first()
        } else {
            b.remaining()
        }),
        b.spec_rest().spec_channels() == b.spec_channels(),
        b.spec_rest().spec_sample_rate() == b.spec_sample_rate(),
{
    if b.remaining().len() > 0 {
        let r = b.spec_rest();
        assert(r.remaining() =~= b.remaining().drop_first());
    }
}

} // verus!
