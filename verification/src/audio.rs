//! Samples of several channels.

use vstd::prelude::*;

verus! {

/// The first `n` samples of each channel, one time after the other. The
/// channels stand one after the other in `data`, each `width` samples long.
pub open spec fn interleaved<T>(data: Seq<T>, channels: nat, width: nat, n: nat) -> Seq<T>
    decreases n,
{
    if n == 0 {
        Seq::empty()
    } else {
        interleaved(data, channels, width, (n - 1) as nat) + Seq::new(
            channels,
            |c: int| data[c * width + (n - 1)],
        )
    }
}

/// Interleave multi-channel audio into a single sample vec: [L, R, L, R, ...]
pub fn interleave_channels<T: Copy>(data: &[T], channels: usize, width: usize, samples: usize) -> (r:
    Vec<T>)
    requires
        samples <= width,
        channels * width <= data@.len(),
    ensures
        r@ == interleaved(data@, channels as nat, width as nat, samples as nat),
{
    let len: usize = data.len();
    let mut out: Vec<T> = Vec::new();
    let mut s: usize = 0;
    while s < samples
        invariant
            len == data@.len(),
            s <= samples <= width,
            channels * width <= data@.len(),
            out@ == interleaved(data@, channels as nat, width as nat, s as nat),
        decreases samples - s,
    {
        let ghost before = out@;
        let ghost new = Seq::new(channels as nat, |c: int| data@[c * width + s]);
        let mut c: usize = 0;
        proof {
            assert(before + new.take(0) == before);
        }
        while c < channels
            invariant
                len == data@.len(),
                c <= channels,
                s < width,
                channels * width <= data@.len(),
                new == Seq::new(channels as nat, |c: int| data@[c * width + s]),
                out@ == before + new.take(c as int),
            decreases channels - c,
        {
            proof {
                assert((c + 1) * width <= channels * width) by (nonlinear_arith)
                    requires
                        c + 1 <= channels,
                ;
                assert((c + 1) * width == c * width + width) by (nonlinear_arith);
                assert(0 <= c * width) by (nonlinear_arith);
            }
            out.push(data[c * width + s]);
            proof {
                assert((before + new.take(c as int)).push(new[c as int]) == before + new.take(
                    c + 1,
                ));
            }
            c = c + 1;
        }
        proof {
            assert(new.take(c as int) == new);
            assert(new == Seq::new(channels as nat, |c: int| data@[c * width + (s + 1 - 1)]));
        }
        s = s + 1;
    }
    out
}

proof fn lemma_interleaved_length<T>(data: Seq<T>, channels: nat, width: nat, n: nat)
    ensures
        interleaved(data, channels, width, n).len() == n * channels,
    decreases n,
{
    if n > 0 {
        lemma_interleaved_length(data, channels, width, (n - 1) as nat);
        assert((n - 1) * channels + channels == n * channels) by (nonlinear_arith);
    } else {
        assert(n * channels == 0) by (nonlinear_arith)
            requires
                n == 0,
        ;
    }
}

/// There is a sample for each channel at each time, and the channels take
/// turns: at each time the first channel's sample comes first.
pub proof fn channels_take_turns<T>(
    data: Seq<T>,
    channels: nat,
    width: nat,
    n: nat,
    s: nat,
    c: nat,
)
    requires
        s < n,
        c < channels,
    ensures
        interleaved(data, channels, width, n).len() == n * channels,
        s * channels + c < n * channels,
        interleaved(data, channels, width, n)[(s * channels + c) as int] == data[(c * width + s) as int],
    decreases n,
{
    let all = interleaved(data, channels, width, n);
    let front = interleaved(data, channels, width, (n - 1) as nat);
    let last = Seq::new(channels, |c: int| data[c * width + (n - 1)]);
    lemma_interleaved_length(data, channels, width, n);
    lemma_interleaved_length(data, channels, width, (n - 1) as nat);
    assert((n - 1) * channels + channels == n * channels) by (nonlinear_arith);
    if s < n - 1 {
        channels_take_turns(data, channels, width, (n - 1) as nat, s, c);
    } else {
        assert(all[(s * channels + c) as int] == last[c as int]);
    }
}

/// The samples of one of several channels that take turns.
pub open spec fn channel<T>(samples: Seq<T>, channels: nat, c: nat) -> Seq<T>
    decreases samples.len(),
{
    if samples.len() == 0 {
        Seq::empty()
    } else {
        let front = channel(samples.drop_last(), channels, c);
        if (samples.len() - 1) % channels as int == c {
            front.push(samples.last())
        } else {
            front
        }
    }
}

/// The right channel: the second one, or the only one.
pub open spec fn right_channel<T>(samples: Seq<T>, channels: nat) -> Seq<T> {
    if channels >= 2 {
        channel(samples, channels, 1)
    } else {
        channel(samples, channels, 0)
    }
}

/// Whether two channels can stand side by side: they are of one length, or the
/// second is a single sample, which is then repeated.
pub open spec fn can_pair<T>(left: Seq<T>, right: Seq<T>) -> bool {
    right.len() == left.len() || right.len() == 1
}

/// A channel, stretched to a length if it is a single sample.
pub open spec fn stretched<T>(right: Seq<T>, n: nat) -> Seq<T> {
    if right.len() == n {
        right
    } else {
        Seq::new(n, |i: int| right[0])
    }
}

fn take_channel<T: Copy>(samples: &[T], channels: usize, c: usize) -> (r: Vec<T>)
    requires
        channels > 0,
    ensures
        r@ == channel(samples@, channels as nat, c as nat),
{
    let mut r: Vec<T> = Vec::new();
    let mut i: usize = 0;
    while i < samples.len()
        invariant
            i <= samples@.len(),
            channels > 0,
            r@ == channel(samples@.take(i as int), channels as nat, c as nat),
        decreases samples.len() - i,
    {
        proof {
            assert(samples@.take(i + 1).drop_last() == samples@.take(i as int));
            assert(samples@.take(i + 1).last() == samples@[i as int]);
        }
        if i % channels == c {
            r.push(samples[i]);
        }
        i = i + 1;
    }
    proof {
        assert(samples@.take(i as int) == samples@);
    }
    r
}

/// The left and the right channel of reference audio: the first two channels,
/// or the only one twice. There is no result if they cannot stand side by side.
pub fn stereo<T: Copy>(samples: &[T], channels: usize) -> (r: Option<(Vec<T>, Vec<T>)>)
    requires
        channels > 0,
    ensures
        ({
            let left = channel(samples@, channels as nat, 0);
            let right = right_channel(samples@, channels as nat);
            match r {
                Some((a, b)) => can_pair(left, right) && a@ == left && b@ == stretched(
                    right,
                    left.len(),
                ),
                None => !can_pair(left, right),
            }
        }),
{
    let left = take_channel(samples, channels, 0);
    let c: usize = if channels >= 2 {
        1
    } else {
        0
    };
    let right = take_channel(samples, channels, c);
    if right.len() == left.len() {
        return Some((left, right));
    }
    if right.len() != 1 {
        return None;
    }
    let n = left.len();
    let sample = right[0];
    let mut whole: Vec<T> = Vec::new();
    let mut i: usize = 0;
    while i < n
        invariant
            i <= n,
            whole@.len() == i,
            forall|j: int| 0 <= j < i ==> whole@[j] == sample,
        decreases n - i,
    {
        whole.push(sample);
        i = i + 1;
    }
    proof {
        assert(whole@ == stretched(right@, n as nat));
    }
    Some((left, whole))
}

/// Channels pair up if they all take the same number of turns.
pub proof fn whole_turns_pair<T>(samples: Seq<T>, channels: nat)
    requires
        channels > 0,
        samples.len() % channels == 0,
    ensures
        can_pair(channel(samples, channels, 0), right_channel(samples, channels)),
{
    if channels >= 2 {
        lemma_channel_length(samples, channels, 0);
        lemma_channel_length(samples, channels, 1);
        let n = samples.len() as int;
        let d = channels as int;
        let q = n / d;
        vstd::arithmetic::div_mod::lemma_fundamental_div_mod(n, d);
        vstd::arithmetic::div_mod::lemma_fundamental_div_mod_converse(n + d - 1, d, q, d - 1);
        vstd::arithmetic::div_mod::lemma_fundamental_div_mod_converse(n + d - 2, d, q, d - 2);
    }
}

/// Taking a channel out again gives back what was interleaved.
pub proof fn channel_undoes_interleaving<T>(
    data: Seq<T>,
    channels: nat,
    width: nat,
    n: nat,
    c: nat,
)
    requires
        c < channels,
    ensures
        channel(interleaved(data, channels, width, n), channels, c) == Seq::new(
            n,
            |s: int| data[c * width + s],
        ),
    decreases n,
{
    if n > 0 {
        channel_undoes_interleaving(data, channels, width, (n - 1) as nat, c);
        let front = interleaved(data, channels, width, (n - 1) as nat);
        let last = Seq::new(channels, |c: int| data[c * width + (n - 1)]);
        lemma_interleaved_length(data, channels, width, (n - 1) as nat);
        lemma_turn(front, last, channels, (n - 1) as nat, c, channels);
        assert(last.take(channels as int) == last);
        assert(Seq::new((n - 1) as nat, |s: int| data[c * width + s]).push(last[c as int])
            == Seq::new(n, |s: int| data[c * width + s]));
    } else {
        assert(channel(interleaved(data, channels, width, n), channels, c) == Seq::<T>::empty());
        assert(Seq::new(n, |s: int| data[c * width + s]) == Seq::<T>::empty());
    }
}

proof fn lemma_turn<T>(front: Seq<T>, last: Seq<T>, channels: nat, turns: nat, c: nat, k: nat)
    requires
        c < channels,
        k <= channels,
        front.len() == turns * channels,
        last.len() == channels,
    ensures
        channel(front + last.take(k as int), channels, c) == if k > c {
            channel(front, channels, c).push(last[c as int])
        } else {
            channel(front, channels, c)
        },
    decreases k,
{
    if k == 0 {
        assert(front + last.take(0) == front);
    } else {
        lemma_turn(front, last, channels, turns, c, (k - 1) as nat);
        let all = front + last.take(k as int);
        assert(all.drop_last() == front + last.take(k - 1));
        assert(all.last() == last[k - 1]);
        assert(turns * channels == channels * turns) by (nonlinear_arith);
        vstd::arithmetic::div_mod::lemma_fundamental_div_mod_converse(
            all.len() - 1,
            channels as int,
            turns as int,
            k - 1,
        );
    }
}

proof fn lemma_channel_length<T>(samples: Seq<T>, channels: nat, c: nat)
    requires
        c < channels,
    ensures
        channel(samples, channels, c).len() == (samples.len() + channels - 1 - c) / channels as int,
    decreases samples.len(),
{
    if samples.len() == 0 {
        vstd::arithmetic::div_mod::lemma_basic_div((channels - 1 - c) as int, channels as int);
    } else {
        let n = samples.len() - 1;
        lemma_channel_length(samples.drop_last(), channels, c);
        let q = n / channels as int;
        let m = n % channels as int;
        vstd::arithmetic::div_mod::lemma_fundamental_div_mod(n, channels as int);
        vstd::arithmetic::div_mod::lemma_mod_bound(n, channels as int);
        if m < c {
            vstd::arithmetic::div_mod::lemma_fundamental_div_mod_converse(
                n + channels - 1 - c,
                channels as int,
                q,
                m + channels - 1 - c,
            );
            vstd::arithmetic::div_mod::lemma_fundamental_div_mod_converse(
                n + channels - c,
                channels as int,
                q,
                m + channels - c,
            );
        } else {
            assert((q + 1) * channels == channels * q + channels) by (nonlinear_arith);
            assert(q * channels == channels * q) by (nonlinear_arith);
            if m == c {
                vstd::arithmetic::div_mod::lemma_fundamental_div_mod_converse(
                    n + channels - 1 - c,
                    channels as int,
                    q,
                    channels - 1,
                );
                vstd::arithmetic::div_mod::lemma_fundamental_div_mod_converse(
                    n + channels - c,
                    channels as int,
                    q + 1,
                    0,
                );
            } else {
                vstd::arithmetic::div_mod::lemma_fundamental_div_mod_converse(
                    n + channels - 1 - c,
                    channels as int,
                    q + 1,
                    m - 1 - c,
                );
                vstd::arithmetic::div_mod::lemma_fundamental_div_mod_converse(
                    n + channels - c,
                    channels as int,
                    q + 1,
                    m - c,
                );
            }
        }
    }
}

} // verus!
