//! Decisions of the serving loop: slots, worker queues and what a connection does next.

use vstd::prelude::*;
use vstd::string::*;
use vstd::utf8::encode_utf8;
use crate::admission::ShedReason;
use crate::bytes::{parse_whole, whole_number};
use crate::ids::RequestId;
use crate::ledger::label_view;
use crate::params::DATAPLANE_PREFILL_RESPONSE_MAX_BYTES;
use crate::router::{DecodePlacement, Phase, RouteError, RoutePath};

verus! {

/// Worker threads unless the environment says otherwise.
pub const DEFAULT_WORKERS: usize = 256;

/// Fewest pump threads unless the environment says otherwise.
pub const MIN_PUMPS: usize = 32;

/// The answer to a connection that is not served.
pub open spec fn unavailable_text() -> Seq<char> {
    "HTTP/1.1 503 Service Unavailable\r\ncontent-length: 0\r\n\r\n"@
}

/// The answer to a connection that is not served.
pub fn unavailable_response() -> (r: &'static str)
    ensures
        r@ == unavailable_text(),
{
    "HTTP/1.1 503 Service Unavailable\r\ncontent-length: 0\r\n\r\n"
}

/// A positive count from the environment, or a default.
pub open spec fn count_or(value: Option<Seq<char>>, default: usize) -> usize {
    match value {
        Some(v) => match whole_number(encode_utf8(v)) {
            Some(n) => if 0 < n <= usize::MAX {
                n as usize
            } else {
                default
            },
            None => default,
        },
        None => default,
    }
}

fn read_count(value: Option<&str>, default: usize) -> (r: usize)
    ensures
        r == count_or(label_view(value), default),
{
    match value {
        Some(v) => match parse_whole(v.as_bytes()) {
            Some(n) => if n > 0 && n <= usize::MAX as u64 {
                n as usize
            } else {
                default
            },
            None => default,
        },
        None => default,
    }
}

/// Worker threads; `value` is what the environment says.
pub fn worker_thread_count(value: Option<&str>) -> (r: usize)
    ensures
        r == count_or(label_view(value), DEFAULT_WORKERS),
{
    read_count(value, DEFAULT_WORKERS)
}

/// Pump threads; `value` is what the environment says, else it is by the number of workers.
pub fn pump_pool_size(value: Option<&str>, workers: usize) -> (r: usize)
    ensures
        r == count_or(
            label_view(value),
            if workers < MIN_PUMPS {
                MIN_PUMPS
            } else {
                workers
            },
        ),
{
    read_count(
        value,
        if workers < MIN_PUMPS {
            MIN_PUMPS
        } else {
            workers
        },
    )
}

/// How many jobs may wait for the pump threads.
pub fn pump_queue_len(pumps: usize) -> (r: usize)
    ensures
        r == if 4 * pumps > usize::MAX {
            usize::MAX as int
        } else if 4 * pumps < MIN_PUMPS {
            MIN_PUMPS as int
        } else {
            4 * pumps
        },
{
    if pumps > usize::MAX / 4 {
        usize::MAX
    } else if 4 * pumps < MIN_PUMPS {
        MIN_PUMPS
    } else {
        4 * pumps
    }
}

/// Connections being served, up to a limit.
#[derive(Debug)]
pub struct ConnSlots {
    live: usize,
    max_conns: usize,
}

impl ConnSlots {
    pub closed spec fn taken(self) -> nat {
        self.live as nat
    }

    pub closed spec fn limit(self) -> nat {
        self.max_conns as nat
    }

    /// All slots free; there is at least one.
    pub fn new(max_conns: usize) -> (r: ConnSlots)
        ensures
            r.taken() == 0,
            r.limit() == if max_conns == 0 {
                1
            } else {
                max_conns as nat
            },
    {
        ConnSlots {
            live: 0,
            max_conns: if max_conns == 0 {
                1
            } else {
                max_conns
            },
        }
    }

    /// Takes a slot, unless the limit is reached.
    pub fn try_conn_slot(&mut self) -> (r: bool)
        requires
            old(self).taken() <= old(self).limit(),
        ensures
            r == (old(self).taken() < old(self).limit()),
            final(self).taken() == old(self).taken() + if r {
                1nat
            } else {
                0
            },
            final(self).limit() == old(self).limit(),
            final(self).taken() <= final(self).limit(),
    {
        if self.live >= self.max_conns {
            return false;
        }
        self.live = self.live + 1;
        true
    }

    /// Gives a slot back.
    pub fn release(&mut self)
        requires
            old(self).taken() > 0,
        ensures
            final(self).taken() == old(self).taken() - 1,
            final(self).limit() == old(self).limit(),
    {
        self.live = self.live - 1;
    }
}

/// How a worker queue took a connection.
#[derive(Debug, Clone, Copy, PartialEq, Eq, Structural)]
pub enum SendResult {
    Sent,
    Full,
    Disconnected,
}

/// What to do with a connection next.
#[derive(Debug, Clone, Copy, PartialEq, Eq, Structural)]
pub enum DispatchStep {
    /// Offer it to this worker.
    Try { worker: usize },
    /// A worker has it.
    Done,
    /// All queues are full: refuse it.
    Shed,
    /// A worker is gone: stop serving.
    Stop,
}

/// Offers connections to workers in turn.
#[derive(Debug)]
pub struct Dispatcher {
    next: usize,
    attempt: usize,
    workers: usize,
}

impl Dispatcher {
    /// The worker that the next connection is offered to first.
    pub closed spec fn turn(self) -> nat {
        self.next as nat
    }

    /// Workers that refused the present connection.
    pub closed spec fn refused(self) -> nat {
        self.attempt as nat
    }

    pub closed spec fn size(self) -> nat {
        self.workers as nat
    }

    /// The turn is at most one past the last worker.
    pub closed spec fn wf(self) -> bool {
        &&& self.next <= self.workers
        &&& self.attempt <= self.workers
        &&& self.workers <= usize::MAX / 2
    }

    pub fn new(workers: usize) -> (r: Dispatcher)
        requires
            workers <= usize::MAX / 2,
        ensures
            r.wf(),
            r.turn() == 0,
            r.refused() == 0,
            r.size() == workers,
    {
        Dispatcher { next: 0, attempt: 0, workers }
    }

    fn offer(&self) -> (r: DispatchStep)
        requires
            self.wf(),
        ensures
            r == offered(self.turn(), self.refused(), self.size()),
    {
        if self.attempt >= self.workers {
            DispatchStep::Shed
        } else {
            DispatchStep::Try { worker: (self.next + self.attempt) % self.workers }
        }
    }

    /// Starts with a new connection.
    pub fn begin(&mut self) -> (r: DispatchStep)
        requires
            old(self).wf(),
        ensures
            final(self).wf(),
            final(self).turn() == old(self).turn(),
            final(self).size() == old(self).size(),
            final(self).refused() == 0,
            r == offered(old(self).turn(), 0, old(self).size()),
    {
        self.attempt = 0;
        self.offer()
    }

    /// Goes on after a worker was offered the connection.
    pub fn after(&mut self, result: SendResult) -> (r: DispatchStep)
        requires
            old(self).wf(),
            old(self).refused() < old(self).size(),
        ensures
            final(self).wf(),
            final(self).size() == old(self).size(),
            match result {
                SendResult::Sent => {
                    &&& r == DispatchStep::Done
                    &&& final(self).turn() == worker_at(
                        old(self).turn(),
                        old(self).refused(),
                        old(self).size(),
                    ) + 1
                },
                SendResult::Full => {
                    &&& r == offered(old(self).turn(), old(self).refused() + 1, old(self).size())
                    &&& final(self).turn() == old(self).turn()
                    &&& final(self).refused() == old(self).refused() + 1
                },
                SendResult::Disconnected => {
                    &&& r == DispatchStep::Stop
                    &&& final(self).turn() == old(self).turn()
                },
            },
    {
        match result {
            SendResult::Sent => {
                self.next = (self.next + self.attempt) % self.workers + 1;
                DispatchStep::Done
            },
            SendResult::Full => {
                self.attempt = self.attempt + 1;
                self.offer()
            },
            SendResult::Disconnected => DispatchStep::Stop,
        }
    }
}

/// The worker whose turn it is after some refusals.
pub open spec fn worker_at(turn: nat, refused: nat, size: nat) -> nat {
    (turn + refused) % size
}

/// The step after some refusals: the next worker, until all have refused.
pub open spec fn offered(turn: nat, refused: nat, size: nat) -> DispatchStep {
    if refused >= size {
        DispatchStep::Shed
    } else {
        DispatchStep::Try { worker: worker_at(turn, refused, size) as usize }
    }
}

/// A connection is refused only after every worker has refused it: the workers tried are distinct
/// and there are as many as there are workers.
pub proof fn every_worker_is_tried(turn: nat, a: nat, b: nat, size: nat)
    requires
        a < b < size,
    ensures
        worker_at(turn, a, size) != worker_at(turn, b, size),
        worker_at(turn, a, size) < size,
{
    let x = (turn + a) as int;
    let y = (turn + b) as int;
    let n = size as int;
    if x % n == y % n {
        vstd::arithmetic::div_mod::lemma_fundamental_div_mod(x, n);
        vstd::arithmetic::div_mod::lemma_fundamental_div_mod(y, n);
        let k = y / n - x / n;
        assert(y - x == n * k) by (nonlinear_arith)
            requires
                x == n * (x / n) + x % n,
                y == n * (y / n) + y % n,
                x % n == y % n,
                k == y / n - x / n,
        ;
        assert(false) by (nonlinear_arith)
            requires
                0 < y - x < n,
                y - x == n * k,
        ;
    }
}

/// What a connection does next.
#[derive(Debug, Clone, Copy, PartialEq, Eq, Structural)]
pub enum ConnStep {
    /// Answer that the service is unavailable and close.
    Unavailable,
    /// Read the request head; a token is held if so said.
    ReadHead { holds_token: bool },
    /// Pass bytes between the client and a backend.
    Proxy { phase: Phase, backend: usize },
    /// Run prefill on a backend and come back with its response.
    Prefill { backend: usize, request_id: RequestId, prompt_tokens: u64 },
}

/// Goes on after admission.
pub fn after_admission(outcome: Result<bool, ShedReason>) -> (r: ConnStep)
    ensures
        r == match outcome {
            Ok(token) => ConnStep::ReadHead { holds_token: token },
            Err(_) => ConnStep::Unavailable,
        },
{
    match outcome {
        Ok(token) => ConnStep::ReadHead { holds_token: token },
        Err(_) => ConnStep::Unavailable,
    }
}

/// Goes on after routing.
pub fn after_route(outcome: &Result<RoutePath, RouteError>) -> (r: ConnStep)
    ensures
        r == match *outcome {
            Ok(RoutePath::Colocated { phase, backend }) => ConnStep::Proxy { phase, backend },
            Ok(RoutePath::DecodeOnly { backend }) => ConnStep::Proxy {
                phase: Phase::Decode,
                backend,
            },
            Ok(RoutePath::Disaggregated { prefill, request_id, prompt_tokens }) =>
                ConnStep::Prefill { backend: prefill, request_id, prompt_tokens },
            Err(_) => ConnStep::Unavailable,
        },
{
    match outcome {
        Ok(path) => match *path {
            RoutePath::Colocated { phase, backend } => ConnStep::Proxy { phase, backend },
            RoutePath::DecodeOnly { backend } => ConnStep::Proxy {
                phase: Phase::Decode,
                backend,
            },
            RoutePath::Disaggregated { prefill, request_id, prompt_tokens } => ConnStep::Prefill {
                backend: prefill,
                request_id,
                prompt_tokens,
            },
        },
        Err(_) => ConnStep::Unavailable,
    }
}

/// Goes on after prefill and the placement of decode.
pub fn after_placement(outcome: &Result<DecodePlacement, RouteError>) -> (r: ConnStep)
    ensures
        r == match *outcome {
            Ok(p) => ConnStep::Proxy { phase: p.phase, backend: p.backend },
            Err(_) => ConnStep::Unavailable,
        },
{
    match outcome {
        Ok(p) => ConnStep::Proxy { phase: p.phase, backend: p.backend },
        Err(_) => ConnStep::Unavailable,
    }
}

/// Whether a prefill response is short enough to be used.
pub fn prefill_response_fits(len: u64) -> (r: bool)
    ensures
        r == (len <= DATAPLANE_PREFILL_RESPONSE_MAX_BYTES),
{
    len <= DATAPLANE_PREFILL_RESPONSE_MAX_BYTES
}

} // verus!
