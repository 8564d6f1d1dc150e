//! The scan engine: how many workers a scan uses, and how what the workers
//! report becomes one ordered result set.
//!
//! A scan splits its range into chunks, hands each chunk to a worker of its
//! own, waits for every worker and merges what they report. Workers finish in
//! any order; the merged results are ordered by port whatever that order was.

use crate::results::{
    lemma_on_port_absent, lemma_on_port_concat, lemma_sorted_unique, on_port, sort_by_port,
    sorted_from, strictly_ascending, PortState, ScanResult,
};
use crate::scanners::partition::{
    chunk_count, chunk_index, lemma_chunk_index, lemma_chunk_position, lemma_partition_covers,
    lesser, partition, partition_spec,
};
use crate::scanners::worker::{
    lemma_tally_all_skipped, lemma_tally_on_port, lemma_tally_ordered, produced, tally,
};
use crate::scanners::{PortRange, ScanProtocol};
use vstd::prelude::*;

verus! {

/// No scan runs more workers than this, however many processors there are.
pub const MAX_WORKERS: usize = 16;

/// The number of logical processors available to this process, from
/// `num_cpus::get`. The crate documents that it always returns at least 1;
/// nothing else is claimed of the number, which depends on the machine.
#[verifier::external_body]
fn available_parallelism() -> (count: usize)
    ensures
        count >= 1,
{
    num_cpus::get()
}

/// The worker cap for a machine with `available` processors: one worker per
/// processor, and never more than `MAX_WORKERS`.
pub fn worker_cap(available: usize) -> (cap: usize)
    ensures
        cap == lesser(available as int, MAX_WORKERS as int),
{
    if available < MAX_WORKERS {
        available
    } else {
        MAX_WORKERS
    }
}

/// The worker cap on this machine.
pub fn worker_count() -> (cap: usize)
    ensures
        1 <= cap <= MAX_WORKERS,
{
    worker_cap(available_parallelism())
}

/// Splits `range` into the chunks that this machine's workers will scan.
pub fn plan(range: &PortRange) -> (chunks: Vec<PortRange>)
    requires
        range.wf(),
    ensures
        exists|cap: int|
            1 <= cap <= MAX_WORKERS && chunks@ == #[trigger] partition_spec(*range, cap),
        1 <= chunks.len() <= MAX_WORKERS,
{
    let cap: usize = worker_count();
    partition(range, cap)
}

/// How a worker ended.
#[derive(Debug)]
pub enum WorkerReport {
    /// The worker went through its chunk and gathered these results.
    Finished(Vec<ScanResult>),
    /// The worker could not set up what it probes with, such as its socket.
    SetupFailed,
    /// The worker broke off; what it had gathered is lost.
    Crashed,
}

/// Why a scan gave no result set.
#[derive(Debug, Clone, Copy, PartialEq, Eq, Structural)]
pub enum ScanError {
    /// The worker at this place among the reports could not set up.
    Setup { worker: usize },
}

/// The results a worker delivered: those it gathered if it finished, none otherwise.
pub open spec fn delivered(report: WorkerReport) -> Seq<ScanResult> {
    match report {
        WorkerReport::Finished(results) => results@,
        _ => Seq::empty(),
    }
}

/// What the workers delivered, one report after the other.
pub open spec fn gathered(reports: Seq<WorkerReport>) -> Seq<ScanResult>
    decreases reports.len(),
{
    if reports.len() == 0 {
        Seq::empty()
    } else {
        gathered(reports.drop_last()) + delivered(reports.last())
    }
}

/// Whether some worker could not set up.
pub open spec fn setup_failed(reports: Seq<WorkerReport>) -> bool {
    exists|k: int| 0 <= k < reports.len() && #[trigger] reports[k] is SetupFailed
}

/// Appends a copy of every result in `more` to `all`.
fn append_results(all: &mut Vec<ScanResult>, more: &Vec<ScanResult>)
    ensures
        final(all)@ == old(all)@ + more@,
{
    let mut k: usize = 0;
    while k < more.len()
        invariant
            k <= more.len(),
            all@ == old(all)@ + more@.take(k as int),
        decreases more.len() - k,
    {
        all.push(more[k]);
        k = k + 1;
        assert(all@ =~= old(all)@ + more@.take(k as int));
    }
    assert(more@.take(k as int) =~= more@);
}

/// Merges what the workers reported into one result set ordered by port.
///
/// A worker that could not set up fails the whole scan; the error names the
/// first such worker. A worker that crashed is tolerated: its ports are
/// missing from the result set.
pub fn collect(reports: &Vec<WorkerReport>) -> (outcome: Result<Vec<ScanResult>, ScanError>)
    ensures
        outcome is Ok <==> !setup_failed(reports@),
        match outcome {
            Ok(results) => {
                &&& sorted_from(results@, gathered(reports@))
                &&& results@.to_multiset() == gathered(reports@).to_multiset()
            },
            Err(ScanError::Setup { worker }) => {
                &&& worker < reports.len()
                &&& reports[worker as int] is SetupFailed
                &&& forall|k: int| 0 <= k < worker ==> !(#[trigger] reports[k] is SetupFailed)
            },
        },
{
    let mut all: Vec<ScanResult> = Vec::new();
    let mut k: usize = 0;
    while k < reports.len()
        invariant
            k <= reports.len(),
            all@ == gathered(reports@.take(k as int)),
            forall|j: int| 0 <= j < k ==> !(#[trigger] reports[j] is SetupFailed),
        decreases reports.len() - k,
    {
        match &reports[k] {
            WorkerReport::Finished(results) => {
                append_results(&mut all, results);
            },
            WorkerReport::SetupFailed => {
                return Err(ScanError::Setup { worker: k });
            },
            WorkerReport::Crashed => {
                assert(all@ =~= all@ + Seq::<ScanResult>::empty());
            },
        }
        assert(reports@.take(k + 1).drop_last() =~= reports@.take(k as int));
        k = k + 1;
    }
    assert(reports@.take(k as int) =~= reports@);
    sort_by_port(&mut all);
    Ok(all)
}

/// The outcomes a worker records on a full pass over `chunk` when probing a
/// port gives what `verdict` says of it.
pub open spec fn verdicts(chunk: PortRange, verdict: spec_fn(u16) -> Option<PortState>) -> Seq<
    Option<PortState>,
> {
    Seq::new(chunk.len_spec() as nat, |k: int| verdict((chunk.start + k) as u16))
}

/// The results of a full pass over `chunk`: one for each port that `verdict`
/// gives a state, lowest port first.
pub open spec fn swept(
    protocol: ScanProtocol,
    chunk: PortRange,
    verdict: spec_fn(u16) -> Option<PortState>,
) -> Seq<ScanResult> {
    tally(protocol, chunk.start as int, verdicts(chunk, verdict))
}

/// `order` is an order in which `count` workers may finish: it names each of
/// them once and none twice.
pub open spec fn is_arrival_order(order: Seq<int>, count: int) -> bool {
    &&& order.len() == count
    &&& forall|j: int| 0 <= j < order.len() ==> 0 <= #[trigger] order[j] < count
    &&& forall|j: int, k: int| 0 <= j < k < order.len() ==> order[j] != order[k]
    &&& forall|i: int| 0 <= i < count ==> #[trigger] order.contains(i)
}

/// What a full pass holds for one port: its result if the port lies in the
/// chunk and `verdict` gives it a state, and nothing otherwise.
pub proof fn lemma_swept_on_port(
    protocol: ScanProtocol,
    chunk: PortRange,
    verdict: spec_fn(u16) -> Option<PortState>,
    port: u16,
)
    ensures
        on_port(swept(protocol, chunk, verdict), port) == if chunk.has(port) {
            produced(protocol, port as int, verdict(port))
        } else {
            Seq::empty()
        },
        strictly_ascending(swept(protocol, chunk, verdict)),
{
    lemma_tally_on_port(protocol, chunk.start as int, verdicts(chunk, verdict), port);
    lemma_tally_ordered(protocol, chunk.start as int, verdicts(chunk, verdict));
}

/// Where at most the report at place `only` delivered results for `port`,
/// the gathered results for that port are the ones it delivered.
pub proof fn lemma_on_port_gathered(reports: Seq<WorkerReport>, port: u16, only: int)
    requires
        forall|j: int|
            0 <= j < reports.len() && j != only ==> on_port(delivered(#[trigger] reports[j]), port)
                == Seq::<ScanResult>::empty(),
    ensures
        on_port(gathered(reports), port) == if 0 <= only < reports.len() {
            on_port(delivered(reports[only]), port)
        } else {
            Seq::empty()
        },
    decreases reports.len(),
{
    if reports.len() == 0 {
        lemma_on_port_absent(gathered(reports), port);
    } else {
        let rest = reports.drop_last();
        assert forall|j: int| 0 <= j < rest.len() && j != only implies on_port(
            delivered(#[trigger] rest[j]),
            port,
        ) == Seq::<ScanResult>::empty() by {
            assert(rest[j] == reports[j]);
        }
        lemma_on_port_gathered(rest, port, only);
        lemma_on_port_concat(gathered(rest), delivered(reports.last()), port);
        let before = on_port(gathered(rest), port);
        let added = on_port(delivered(reports.last()), port);
        if only == reports.len() - 1 {
            assert(before + added =~= added);
        } else {
            assert(added == Seq::<ScanResult>::empty());
            assert(before + added =~= before);
        }
    }
}

/// The result set of a scan does not depend on how the range was split nor on
/// the order in which the workers finished.
///
/// When every worker made a full pass over its chunk of the partition, and
/// the workers' results were gathered in any order of arrival, the sorted
/// result set is the same as that of a single pass over the whole range, and
/// its ports rise strictly.
pub proof fn lemma_scan_is_order_independent(
    protocol: ScanProtocol,
    range: PortRange,
    cap: int,
    verdict: spec_fn(u16) -> Option<PortState>,
    order: Seq<int>,
    reports: Seq<WorkerReport>,
    merged: Seq<ScanResult>,
)
    requires
        range.wf(),
        cap >= 1,
        is_arrival_order(order, chunk_count(range.len_spec(), cap)),
        reports.len() == order.len(),
        forall|j: int|
            0 <= j < reports.len() ==> delivered(#[trigger] reports[j]) == swept(
                protocol,
                partition_spec(range, cap)[order[j]],
                verdict,
            ),
        sorted_from(merged, gathered(reports)),
    ensures
        merged == swept(protocol, range, verdict),
        strictly_ascending(merged),
{
    let whole = swept(protocol, range, verdict);
    let chunks = partition_spec(range, cap);
    lemma_partition_covers(range, cap);
    assert forall|port: u16| #[trigger]
        on_port(whole, port) == on_port(gathered(reports), port) by {
        lemma_swept_on_port(protocol, range, verdict, port);
        if range.has(port) {
            let home = chunk_index(range, cap, port);
            lemma_chunk_index(range, cap, port);
            assert(order.contains(home));
            let at = choose|j: int| 0 <= j < order.len() && order[j] == home;
            assert forall|j: int| 0 <= j < reports.len() && j != at implies on_port(
                delivered(#[trigger] reports[j]),
                port,
            ) == Seq::<ScanResult>::empty() by {
                assert(order[j] != order[at]);
                assert(chunks[home].has(port));
                assert(!chunks[order[j]].has(port));
                lemma_swept_on_port(protocol, chunks[order[j]], verdict, port);
            }
            lemma_on_port_gathered(reports, port, at);
            lemma_swept_on_port(protocol, chunks[home], verdict, port);
        } else {
            assert forall|j: int| 0 <= j < reports.len() implies on_port(
                delivered(#[trigger] reports[j]),
                port,
            ) == Seq::<ScanResult>::empty() by {
                assert(0 <= order[j] < chunks.len());
                assert(!chunks[order[j]].has(port));
                lemma_swept_on_port(protocol, chunks[order[j]], verdict, port);
            }
            lemma_on_port_gathered(reports, port, -1);
        }
    }
    lemma_swept_on_port(protocol, range, verdict, 0);
    assert(sorted_from(whole, gathered(reports)));
    lemma_sorted_unique(merged, whole, gathered(reports));
}

/// Scanning again gives the same again: two scans of the same range whose
/// probes found the same for every port have the same result set, however
/// each scan was split and in whatever order its workers finished.
pub proof fn lemma_repeated_scan_is_equal(
    protocol: ScanProtocol,
    range: PortRange,
    verdict: spec_fn(u16) -> Option<PortState>,
    first_cap: int,
    first_order: Seq<int>,
    first_reports: Seq<WorkerReport>,
    first_merged: Seq<ScanResult>,
    second_cap: int,
    second_order: Seq<int>,
    second_reports: Seq<WorkerReport>,
    second_merged: Seq<ScanResult>,
)
    requires
        range.wf(),
        first_cap >= 1,
        is_arrival_order(first_order, chunk_count(range.len_spec(), first_cap)),
        first_reports.len() == first_order.len(),
        forall|j: int|
            0 <= j < first_reports.len() ==> delivered(#[trigger] first_reports[j]) == swept(
                protocol,
                partition_spec(range, first_cap)[first_order[j]],
                verdict,
            ),
        sorted_from(first_merged, gathered(first_reports)),
        second_cap >= 1,
        is_arrival_order(second_order, chunk_count(range.len_spec(), second_cap)),
        second_reports.len() == second_order.len(),
        forall|j: int|
            0 <= j < second_reports.len() ==> delivered(#[trigger] second_reports[j]) == swept(
                protocol,
                partition_spec(range, second_cap)[second_order[j]],
                verdict,
            ),
        sorted_from(second_merged, gathered(second_reports)),
    ensures
        first_merged == second_merged,
{
    lemma_scan_is_order_independent(
        protocol,
        range,
        first_cap,
        verdict,
        first_order,
        first_reports,
        first_merged,
    );
    lemma_scan_is_order_independent(
        protocol,
        range,
        second_cap,
        verdict,
        second_order,
        second_reports,
        second_merged,
    );
}

/// The place among the reports at which the worker of chunk `worker` reported.
pub open spec fn arrival_of(order: Seq<int>, worker: int) -> int {
    choose|j: int| 0 <= j < order.len() && order[j] == worker
}

/// What a scan learns of a port when some workers crashed: what `verdict`
/// says of it if the worker of its chunk finished, and nothing if not.
pub open spec fn surviving(
    range: PortRange,
    cap: int,
    verdict: spec_fn(u16) -> Option<PortState>,
    order: Seq<int>,
    reports: Seq<WorkerReport>,
) -> spec_fn(u16) -> Option<PortState> {
    |port: u16|
        if reports[arrival_of(order, chunk_index(range, cap, port))] is Finished {
            verdict(port)
        } else {
            None
        }
}

/// A crashed worker costs the scan the ports of its chunk and nothing else.
///
/// When every worker either crashed or made a full pass over its chunk, the
/// sorted result set is that of a single pass over the whole range in which
/// the ports of the crashed workers' chunks were skipped.
pub proof fn lemma_scan_tolerates_crashes(
    protocol: ScanProtocol,
    range: PortRange,
    cap: int,
    verdict: spec_fn(u16) -> Option<PortState>,
    order: Seq<int>,
    reports: Seq<WorkerReport>,
    merged: Seq<ScanResult>,
)
    requires
        range.wf(),
        cap >= 1,
        is_arrival_order(order, chunk_count(range.len_spec(), cap)),
        reports.len() == order.len(),
        forall|j: int|
            0 <= j < reports.len() ==> {
                ||| #[trigger] reports[j] is Crashed
                ||| reports[j] is Finished && delivered(reports[j]) == swept(
                    protocol,
                    partition_spec(range, cap)[order[j]],
                    verdict,
                )
            },
        sorted_from(merged, gathered(reports)),
    ensures
        merged == swept(protocol, range, surviving(range, cap, verdict, order, reports)),
        strictly_ascending(merged),
{
    let chunks = partition_spec(range, cap);
    let kept = surviving(range, cap, verdict, order, reports);
    lemma_partition_covers(range, cap);
    assert forall|j: int| 0 <= j < reports.len() implies delivered(#[trigger] reports[j]) == swept(
        protocol,
        chunks[order[j]],
        kept,
    ) by {
        let chunk = chunks[order[j]];
        lemma_chunk_position(range, cap, order[j]);
        let finished = reports[j] is Finished;
        assert forall|port: u16| chunk.has(port) implies #[trigger] kept(port) == (if finished {
            verdict(port)
        } else {
            None
        }) by {
            assert(range.has(port));
            lemma_chunk_index(range, cap, port);
            let home = chunk_index(range, cap, port);
            assert(chunks[home].has(port));
            assert(home == order[j]);
            let at = arrival_of(order, home);
            assert(0 <= at < order.len() && order[at] == home);
            assert(at == j) by {
                if at < j {
                    assert(order[at] != order[j]);
                }
                if j < at {
                    assert(order[j] != order[at]);
                }
            }
        }
        if reports[j] is Finished {
            assert(verdicts(chunk, kept) =~= verdicts(chunk, verdict));
        } else {
            lemma_tally_all_skipped(
                protocol,
                chunk.start as int,
                verdicts(chunk, kept),
            );
        }
    }
    lemma_scan_is_order_independent(protocol, range, cap, kept, order, reports, merged);
}

} // verus!
