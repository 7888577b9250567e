//! Prompt-length predictor.

use vstd::prelude::*;
use std::collections::VecDeque;
use crate::kv::{footprint_countable, kv_breakdown, reserved_bytes};
use crate::ledger::push_bounded;
use crate::stats::{percentile_of, percentile_sorted, sorted};

verus! {

/// How many prompts the predictor looks back on.
pub const MAX_SAMPLES: usize = 512;

/// Recent prompt lengths.
#[derive(Debug)]
pub struct LengthPredictor {
    samples: VecDeque<u64>,
}

impl View for LengthPredictor {
    type V = Seq<u64>;

    closed spec fn view(&self) -> Seq<u64> {
        self.samples@
    }
}

impl Default for LengthPredictor {
    fn default() -> (r: LengthPredictor)
        ensures
            r@ == Seq::<u64>::empty(),
    {
        LengthPredictor { samples: VecDeque::new() }
    }
}

impl LengthPredictor {
    /// Adds a prompt; the oldest makes room.
    pub fn record(&mut self, prompt_tokens: u64)
        ensures
            final(self)@ == push_bounded(old(self)@, MAX_SAMPLES as nat, prompt_tokens),
    {
        if self.samples.len() >= MAX_SAMPLES {
            self.samples.pop_front();
        }
        self.samples.push_back(prompt_tokens);
        assert(self.samples@ =~= push_bounded(
            old(self)@,
            MAX_SAMPLES as nat,
            prompt_tokens,
        ));
    }

    fn percentile_at(&self, percent: u64) -> (r: u64)
        requires
            percent <= 100,
        ensures
            r == percentile_of(self@, percent as nat),
    {
        let mut v: Vec<u64> = Vec::new();
        let n: usize = self.samples.len();
        for i in 0..n
            invariant
                n == self.samples@.len(),
                v@ =~= self.samples@.take(i as int),
        {
            v.push(self.samples[i]);
        }
        assert(v@ =~= self.samples@);
        percentile_sorted(&sorted(v), percent)
    }

    /// Median prompt length.
    pub fn p50(&self) -> (r: u64)
        ensures
            r == percentile_of(self@, 50),
    {
        self.percentile_at(50)
    }

    /// 90th percentile of prompt lengths.
    pub fn p90(&self) -> (r: u64)
        ensures
            r == percentile_of(self@, 90),
    {
        self.percentile_at(90)
    }

    /// 99th percentile of prompt lengths.
    pub fn p99(&self) -> (r: u64)
        ensures
            r == percentile_of(self@, 99),
    {
        self.percentile_at(99)
    }

    /// Reservation for a prompt at the 90th percentile.
    pub fn reserve_bytes_p90(&self, bytes_per_token: u64) -> (r: u64)
        requires
            footprint_countable(percentile_of(self@, 90) as nat, bytes_per_token as nat),
        ensures
            r == reserved_bytes(percentile_of(self@, 90) as nat, bytes_per_token as nat),
    {
        kv_breakdown(self.p90(), bytes_per_token).kv_reserved
    }
}

} // verus!
