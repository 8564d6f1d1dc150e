//! One worker's pass over its chunk of ports.
//!
//! A worker is handed the ports of its chunk one at a time, lowest first. The
//! caller probes the port and records what the probe found; a port whose probe
//! could not be carried out is recorded as skipped and leaves no result.

use crate::results::{
    lemma_on_port_absent, lemma_on_port_push, on_port, strictly_ascending, PortState, ScanResult,
};
use crate::scanners::{PortRange, ScanProtocol};
use vstd::prelude::*;

verus! {

/// What one recorded outcome adds to a worker's results: one result for the
/// port when the probe found a state, nothing when the port was skipped.
pub open spec fn produced(protocol: ScanProtocol, port: int, outcome: Option<PortState>) -> Seq<
    ScanResult,
> {
    match outcome {
        Some(state) => seq![ScanResult { protocol, port: port as u16, state }],
        None => Seq::empty(),
    }
}

/// The results a worker holds after it recorded `outcomes`, the first of them
/// for port `start`, the next for the port after it, and so on.
pub open spec fn tally(protocol: ScanProtocol, start: int, outcomes: Seq<Option<PortState>>) -> Seq<
    ScanResult,
>
    decreases outcomes.len(),
{
    if outcomes.len() == 0 {
        Seq::empty()
    } else {
        tally(protocol, start, outcomes.drop_last()) + produced(
            protocol,
            start + outcomes.len() - 1,
            outcomes.last(),
        )
    }
}

/// Recording one more outcome appends what it produces.
pub proof fn lemma_tally_push(
    protocol: ScanProtocol,
    start: int,
    outcomes: Seq<Option<PortState>>,
    outcome: Option<PortState>,
)
    ensures
        tally(protocol, start, outcomes.push(outcome)) == tally(protocol, start, outcomes)
            + produced(protocol, start + outcomes.len(), outcome),
{
    assert(outcomes.push(outcome).drop_last() =~= outcomes);
}

/// Every result of a tally names the worker's protocol and a port that was
/// probed, and the ports rise strictly.
pub proof fn lemma_tally_ordered(
    protocol: ScanProtocol,
    start: int,
    outcomes: Seq<Option<PortState>>,
)
    requires
        0 <= start,
        start + outcomes.len() <= 65536,
    ensures
        tally(protocol, start, outcomes).len() <= outcomes.len(),
        strictly_ascending(tally(protocol, start, outcomes)),
        forall|k: int|
            0 <= k < tally(protocol, start, outcomes).len() ==> {
                let result = #[trigger] tally(protocol, start, outcomes)[k];
                &&& result.protocol == protocol
                &&& start <= result.port < start + outcomes.len()
                &&& outcomes[result.port - start] == Some(result.state)
            },
    decreases outcomes.len(),
{
    if outcomes.len() > 0 {
        lemma_tally_ordered(protocol, start, outcomes.drop_last());
    }
}

/// What a tally holds for one port: the state that was recorded for it, if
/// the port was probed and not skipped.
pub proof fn lemma_tally_on_port(
    protocol: ScanProtocol,
    start: int,
    outcomes: Seq<Option<PortState>>,
    port: u16,
)
    requires
        0 <= start,
        start + outcomes.len() <= 65536,
    ensures
        on_port(tally(protocol, start, outcomes), port) == if start <= port < start
            + outcomes.len() {
            produced(protocol, port as int, outcomes[port - start])
        } else {
            Seq::empty()
        },
    decreases outcomes.len(),
{
    if outcomes.len() == 0 {
        lemma_on_port_absent(tally(protocol, start, outcomes), port);
    } else {
        let before = tally(protocol, start, outcomes.drop_last());
        let last_port = start + outcomes.len() - 1;
        lemma_tally_on_port(protocol, start, outcomes.drop_last(), port);
        match outcomes.last() {
            Some(state) => {
                let result = ScanResult { protocol, port: last_port as u16, state };
                assert(before + produced(protocol, last_port, outcomes.last()) =~= before.push(
                    result,
                ));
                lemma_on_port_push(before, result, port);
                if port == last_port {
                    assert(Seq::<ScanResult>::empty().push(result) =~= seq![result]);
                }
            },
            None => {
                assert(before + produced(protocol, last_port, outcomes.last()) =~= before);
            },
        }
    }
}

/// A pass that skipped every port gathered nothing.
pub proof fn lemma_tally_all_skipped(
    protocol: ScanProtocol,
    start: int,
    outcomes: Seq<Option<PortState>>,
)
    requires
        forall|k: int| 0 <= k < outcomes.len() ==> outcomes[k] is None,
    ensures
        tally(protocol, start, outcomes) == Seq::<ScanResult>::empty(),
    decreases outcomes.len(),
{
    if outcomes.len() > 0 {
        lemma_tally_all_skipped(protocol, start, outcomes.drop_last());
        assert(tally(protocol, start, outcomes) =~= Seq::<ScanResult>::empty());
    }
}

/// A worker's pass over one chunk of ports.
pub struct Worker {
    protocol: ScanProtocol,
    chunk: PortRange,
    done: u32,
    results: Vec<ScanResult>,
    recorded: Ghost<Seq<Option<PortState>>>,
}

impl Worker {
    /// What holds of every worker: it recorded no more outcomes than its
    /// chunk has ports, and its results are the tally of those outcomes.
    pub closed spec fn wf(self) -> bool {
        &&& self.done == self.recorded@.len()
        &&& self.done <= self.chunk.len_spec()
        &&& self.results@ == tally(self.protocol, self.chunk.start as int, self.recorded@)
    }

    /// The protocol the worker probes with.
    pub closed spec fn protocol_spec(self) -> ScanProtocol {
        self.protocol
    }

    /// The chunk of ports the worker is to probe.
    pub closed spec fn chunk_spec(self) -> PortRange {
        self.chunk
    }

    /// The outcomes recorded so far, that of the chunk's first port first.
    pub closed spec fn outcomes(self) -> Seq<Option<PortState>> {
        self.recorded@
    }

    /// The results gathered so far.
    pub closed spec fn results_spec(self) -> Seq<ScanResult> {
        self.results@
    }

    /// Whether an outcome was recorded for every port of the chunk.
    pub open spec fn finished_spec(self) -> bool {
        self.outcomes().len() >= self.chunk_spec().len_spec()
    }

    /// A worker's results are the tally of the outcomes it recorded: at most
    /// one result for each port probed, in rising order of port.
    pub proof fn lemma_results(self)
        requires
            self.wf(),
        ensures
            self.outcomes().len() <= self.chunk_spec().len_spec(),
            self.results_spec() == tally(
                self.protocol_spec(),
                self.chunk_spec().start as int,
                self.outcomes(),
            ),
            strictly_ascending(self.results_spec()),
    {
        lemma_tally_ordered(self.protocol, self.chunk.start as int, self.recorded@);
    }

    /// A worker that has yet to probe the first port of `chunk`.
    pub fn new(protocol: ScanProtocol, chunk: PortRange) -> (worker: Self)
        ensures
            worker.wf(),
            worker.protocol_spec() == protocol,
            worker.chunk_spec() == chunk,
            worker.outcomes() == Seq::<Option<PortState>>::empty(),
            worker.results_spec() == Seq::<ScanResult>::empty(),
    {
        Worker { protocol, chunk, done: 0, results: Vec::new(), recorded: Ghost(Seq::empty()) }
    }

    /// The protocol the worker probes with.
    pub fn protocol(&self) -> (protocol: ScanProtocol)
        ensures
            protocol == self.protocol_spec(),
    {
        self.protocol
    }

    /// The chunk of ports the worker is to probe.
    pub fn chunk(&self) -> (chunk: PortRange)
        ensures
            chunk == self.chunk_spec(),
    {
        self.chunk
    }

    /// The port to probe next: the lowest port of the chunk for which no
    /// outcome was recorded, or none when the pass is finished.
    pub fn next_port(&self) -> (next: Option<u16>)
        requires
            self.wf(),
        ensures
            next == if self.finished_spec() {
                None
            } else {
                Some((self.chunk_spec().start + self.outcomes().len()) as u16)
            },
            next is Some ==> self.chunk_spec().has(next.unwrap()),
    {
        if self.done < self.chunk.len() {
            let port: u32 = self.chunk.start as u32 + self.done;
            Some(port as u16)
        } else {
            None
        }
    }

    /// Whether an outcome was recorded for every port of the chunk.
    pub fn is_finished(&self) -> (finished: bool)
        requires
            self.wf(),
        ensures
            finished == self.finished_spec(),
    {
        self.done >= self.chunk.len()
    }

    /// Records the outcome of probing the next port: the state found, or
    /// `None` for a port that was skipped. A finished worker records nothing.
    pub fn record(&mut self, outcome: Option<PortState>)
        requires
            old(self).wf(),
        ensures
            final(self).wf(),
            final(self).protocol_spec() == old(self).protocol_spec(),
            final(self).chunk_spec() == old(self).chunk_spec(),
            final(self).outcomes() == if old(self).finished_spec() {
                old(self).outcomes()
            } else {
                old(self).outcomes().push(outcome)
            },
            final(self).results_spec() == if old(self).finished_spec() {
                old(self).results_spec()
            } else {
                old(self).results_spec() + produced(
                    old(self).protocol_spec(),
                    old(self).chunk_spec().start + old(self).outcomes().len(),
                    outcome,
                )
            },
    {
        if self.done < self.chunk.len() {
            let port: u32 = self.chunk.start as u32 + self.done;
            proof {
                lemma_tally_push(self.protocol, self.chunk.start as int, self.recorded@, outcome);
            }
            match outcome {
                Some(state) => {
                    let ghost before = self.results@;
                    let result = ScanResult::new(self.protocol, port as u16, state);
                    self.results.push(result);
                    assert(self.results@ =~= before + seq![result]);
                },
                None => {
                    assert(self.results@ =~= self.results@ + Seq::<ScanResult>::empty());
                },
            }
            self.done = self.done + 1;
            self.recorded = Ghost(self.recorded@.push(outcome));
        }
    }

    /// Ends the pass and hands out the results gathered, lowest port first.
    pub fn into_results(self) -> (results: Vec<ScanResult>)
        requires
            self.wf(),
        ensures
            results@ == self.results_spec(),
            results@ == tally(
                self.protocol_spec(),
                self.chunk_spec().start as int,
                self.outcomes(),
            ),
            strictly_ascending(results@),
    {
        proof {
            self.lemma_results();
        }
        self.results
    }
}

} // verus!
