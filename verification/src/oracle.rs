//! Adaptive network estimator: a Jacobson EWMA over round-trip samples and a
//! loss-rate heuristic that drives pacing and redundancy policy.
//!
//! All quantities are integers: times are microseconds, and the loss rate is
//! held in hundredths (0 stands for 0.0, 100 for 1.0), so one spike raises it
//! by 10 (0.1) and one calm sample decays it by 1 (0.01).

use vstd::prelude::*;

verus! {

/// Upper bound kept on the smoothed RTT so the EWMA arithmetic can never
/// overflow: about 35 years in microseconds, far beyond any real sample.
pub const RTT_CEILING_MICROS: u64 = 0x4_0000_0000_0000;

/// `loss_rate` is a fraction in hundredths; 100 stands for 1.0.
pub const LOSS_RATE_ONE: u32 = 100;

/// One smoothing step of the RTT estimator with gain 1/8:
/// `(1 - 1/8) * srtt + (1/8) * sample`, rounded down.
pub open spec fn ewma_step(srtt: u64, sample: u64) -> int {
    (7 * srtt + sample) / 8
}

/// One step of the loss heuristic, judged against the smoothed RTT from
/// *before* the sample is folded in: a spike (sample more than twice the
/// estimate) raises the rate by 10 hundredths, capped at 1.0; anything else
/// decays it by 1 hundredth, floored at 0.
pub open spec fn loss_step(loss: u32, spiked: bool) -> u32 {
    if spiked {
        if loss + 10 >= LOSS_RATE_ONE {
            LOSS_RATE_ONE
        } else {
            (loss + 10) as u32
        }
    } else {
        if loss >= 1 {
            (loss - 1) as u32
        } else {
            0
        }
    }
}

/// The loss rate after `n` consecutive calm samples.
pub open spec fn loss_after_calm(loss: u32, n: nat) -> u32
    decreases n,
{
    if n == 0 {
        loss
    } else {
        loss_step(loss_after_calm(loss, (n - 1) as nat), false)
    }
}

/// The loss rate after `n` consecutive spiking samples.
pub open spec fn loss_after_spikes(loss: u32, n: nat) -> u32
    decreases n,
{
    if n == 0 {
        loss
    } else {
        loss_step(loss_after_spikes(loss, (n - 1) as nat), true)
    }
}

/// RTT estimator and loss-rate heuristic; owned and mutated exclusively by
/// one session.
#[derive(Debug, Clone, Copy, PartialEq, Eq, Structural)]
pub struct NetworkOracle {
    /// Smoothed round-trip estimate, microseconds.
    pub smoothed_rtt: u64,
    /// Round-trip variance estimate, microseconds.
    pub rtt_var: u64,
    /// Estimated loss fraction in hundredths, 0 ..= 100.
    pub loss_rate: u32,
}

impl NetworkOracle {
    /// The estimator's invariant: the smoothed RTT stays below the ceiling
    /// (so smoothing arithmetic cannot overflow) and the loss rate is a
    /// fraction of at most 1.0.
    pub open spec fn wf(self) -> bool {
        self.smoothed_rtt <= RTT_CEILING_MICROS && self.loss_rate <= LOSS_RATE_ONE
    }

    /// Initial state: a 100 ms round-trip guess and no observed loss.
    pub fn new() -> (r: Self)
        ensures
            r.wf(),
            r.smoothed_rtt == 100_000u64,
            r.rtt_var == 0u64,
            r.loss_rate == 0u32,
    {
        NetworkOracle { smoothed_rtt: 100_000, rtt_var: 0, loss_rate: 0 }
    }

    /// Fold one round-trip sample (microseconds) into the model: smooth the
    /// RTT with gain 1/8, and judge the sample against the previous estimate
    /// to raise or decay the loss rate.
    pub fn update_rtt(&mut self, rtt_micros: u64)
        requires
            old(self).wf(),
            rtt_micros <= RTT_CEILING_MICROS,
        ensures
            final(self).wf(),
            final(self).smoothed_rtt == ewma_step(old(self).smoothed_rtt, rtt_micros),
            final(self).loss_rate == loss_step(
                old(self).loss_rate,
                rtt_micros > 2 * old(self).smoothed_rtt,
            ),
            final(self).rtt_var == old(self).rtt_var,
    {
        let spiked = rtt_micros > 2 * self.smoothed_rtt;
        self.smoothed_rtt = (7 * self.smoothed_rtt + rtt_micros) / 8;
        if spiked {
            self.loss_rate = if self.loss_rate + 10 >= LOSS_RATE_ONE {
                LOSS_RATE_ONE
            } else {
                self.loss_rate + 10
            };
        } else {
            self.loss_rate = if self.loss_rate >= 1 {
                self.loss_rate - 1
            } else {
                0
            };
        }
    }

    /// Minimum delay enforced between sends: a tenth of the smoothed RTT,
    /// in microseconds.
    pub fn get_pacing_interval(&self) -> (r: u64)
        ensures
            r == self.smoothed_rtt / 10,
    {
        self.smoothed_rtt / 10
    }
}

/// Sustained calm feedback drives the loss rate to zero: after at least
/// `loss` calm samples the estimate reaches 0 and stays there.
pub proof fn lemma_calm_drives_loss_to_zero(loss: u32, n: nat)
    requires
        n >= loss,
    ensures
        loss_after_calm(loss, n) == 0,
    decreases n,
{
    if n == 0 {
    } else {
        if n - 1 >= loss {
            lemma_calm_drives_loss_to_zero(loss, (n - 1) as nat);
        } else {
            lemma_calm_decrements(loss, (n - 1) as nat);
        }
    }
}

/// Each calm sample lowers the estimate by exactly one hundredth until it
/// reaches the floor: after `n <= loss` calm samples it is `loss - n`.
pub proof fn lemma_calm_decrements(loss: u32, n: nat)
    requires
        n <= loss,
    ensures
        loss_after_calm(loss, n) == loss - n,
    decreases n,
{
    if n == 0 {
    } else {
        lemma_calm_decrements(loss, (n - 1) as nat);
    }
}

/// Sustained spiking feedback drives the loss rate to 1.0: after at least
/// 10 spiking samples the estimate sits at the cap and stays there.
pub proof fn lemma_spikes_drive_loss_to_one(loss: u32, n: nat)
    requires
        n >= 10,
    ensures
        loss_after_spikes(loss, n) == LOSS_RATE_ONE,
    decreases n,
{
    if n == 10 {
        lemma_spikes_raise(loss, 10);
    } else {
        lemma_spikes_drive_loss_to_one(loss, (n - 1) as nat);
    }
}

/// Each spike raises the estimate by at least 10 hundredths until the cap:
/// after `n` spikes it is at least `min(100, loss + 10 n)`.
pub proof fn lemma_spikes_raise(loss: u32, n: nat)
    ensures
        loss_after_spikes(loss, n) >= vstd::math::min(LOSS_RATE_ONE as int, loss + 10 * n),
        loss_after_spikes(loss, n) <= LOSS_RATE_ONE || loss_after_spikes(loss, n) == loss,
    decreases n,
{
    if n == 0 {
    } else {
        lemma_spikes_raise(loss, (n - 1) as nat);
    }
}

} // verus!
