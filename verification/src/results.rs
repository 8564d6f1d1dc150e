//! Port states and scan results.

use crate::scanners::text::{decimal_text, write_decimal};
use crate::scanners::ScanProtocol;
use vstd::prelude::*;

verus! {

/// The state of a port after it was probed.
#[derive(Debug, Clone, Copy, PartialEq, Eq, Structural)]
pub enum PortState {
    /// The service answered or accepted a connection.
    Open,
    /// The port actively rejected the probe.
    Closed,
    /// No conclusive signal arrived in time.
    Filtered,
}

impl PortState {
    /// The lower-case name under which the state is shown.
    pub open spec fn name_spec(self) -> Seq<char> {
        match self {
            PortState::Open => "open"@,
            PortState::Closed => "closed"@,
            PortState::Filtered => "filtered"@,
        }
    }

    /// The lower-case name under which the state is shown.
    pub fn name(&self) -> (text: &'static str)
        ensures
            text@ == self.name_spec(),
    {
        match self {
            PortState::Open => "open",
            PortState::Closed => "closed",
            PortState::Filtered => "filtered",
        }
    }
}

/// The outcome of probing one port.
#[derive(Debug, Clone, Copy, PartialEq, Eq, Structural)]
pub struct ScanResult {
    /// The protocol the port was probed with.
    pub protocol: ScanProtocol,
    /// The port that was probed.
    pub port: u16,
    /// The state the probe found.
    pub state: PortState,
}

impl ScanResult {
    pub fn new(protocol: ScanProtocol, port: u16, state: PortState) -> (result: Self)
        ensures
            result == (ScanResult { protocol, port, state }),
    {
        ScanResult { protocol, port, state }
    }
}

/// The results of a scan.
pub type ScanResults = Vec<ScanResult>;

/// Ordered by port, equal ports allowed.
pub open spec fn ascending(results: Seq<ScanResult>) -> bool {
    forall|i: int, j: int| 0 <= i < j < results.len() ==> results[i].port <= results[j].port
}

/// Ordered by port with no port twice.
pub open spec fn strictly_ascending(results: Seq<ScanResult>) -> bool {
    forall|i: int, j: int| 0 <= i < j < results.len() ==> results[i].port < results[j].port
}

/// The results for one port, in the order in which they stand in `results`.
pub open spec fn on_port(results: Seq<ScanResult>, port: u16) -> Seq<ScanResult> {
    results.filter(|r: ScanResult| r.port == port)
}

/// `sorted` is `results` sorted by port, with results for the same port kept
/// in the order they had: it ascends, and for every port it holds the same
/// results in the same order as `results`.
pub open spec fn sorted_from(sorted: Seq<ScanResult>, results: Seq<ScanResult>) -> bool {
    &&& ascending(sorted)
    &&& forall|port: u16| #[trigger] on_port(sorted, port) == on_port(results, port)
}

/// Appending a result adds it to the results of its own port and to no other's.
pub proof fn lemma_on_port_push(results: Seq<ScanResult>, last: ScanResult, port: u16)
    ensures
        on_port(results.push(last), port) == if last.port == port {
            on_port(results, port).push(last)
        } else {
            on_port(results, port)
        },
{
    results.lemma_filter_push(last, |r: ScanResult| r.port == port);
}

/// The results for a port in a concatenation are those of the first part
/// followed by those of the second.
pub proof fn lemma_on_port_concat(first: Seq<ScanResult>, second: Seq<ScanResult>, port: u16)
    ensures
        on_port(first + second, port) == on_port(first, port) + on_port(second, port),
{
    Seq::filter_distributes_over_add(first, second, |r: ScanResult| r.port == port);
}

/// A port that no result names has no results.
pub proof fn lemma_on_port_absent(results: Seq<ScanResult>, port: u16)
    requires
        forall|i: int| 0 <= i < results.len() ==> results[i].port != port,
    ensures
        on_port(results, port) == Seq::<ScanResult>::empty(),
    decreases results.len(),
{
    reveal(Seq::filter);
    if results.len() > 0 {
        lemma_on_port_absent(results.drop_last(), port);
    }
}

/// A result that stands in `results` stands among the results of its port.
pub proof fn lemma_on_port_present(results: Seq<ScanResult>, i: int)
    requires
        0 <= i < results.len(),
    ensures
        on_port(results, results[i].port).contains(results[i]),
{
    let port = results[i].port;
    results.lemma_filter_contains(|r: ScanResult| r.port == port, i);
}

/// Every result among the results of a port names that port and stands in `results`.
pub proof fn lemma_on_port_member(results: Seq<ScanResult>, port: u16, k: int)
    requires
        0 <= k < on_port(results, port).len(),
    ensures
        on_port(results, port)[k].port == port,
        results.contains(on_port(results, port)[k]),
{
    let pred = |r: ScanResult| r.port == port;
    results.lemma_filter_pred(pred, k);
    results.lemma_filter_contains_rev(pred, on_port(results, port)[k]);
}

/// No port is named by two results.
pub open spec fn ports_distinct(results: Seq<ScanResult>) -> bool {
    forall|i: int, j: int| 0 <= i < j < results.len() ==> results[i].port != results[j].port
}

/// Two ascending lists that hold, for every port, the same results in the
/// same order are the same list.
pub proof fn lemma_ascending_determined(a: Seq<ScanResult>, b: Seq<ScanResult>)
    requires
        ascending(a),
        ascending(b),
        forall|port: u16| #[trigger] on_port(a, port) == on_port(b, port),
    ensures
        a == b,
    decreases a.len(),
{
    if a.len() == 0 {
        if b.len() > 0 {
            lemma_on_port_present(b, 0);
            lemma_on_port_absent(a, b[0].port);
            assert(on_port(a, b[0].port) == on_port(b, b[0].port));
        }
        assert(a =~= b);
    } else {
        let x = a.last();
        let rest_a = a.drop_last();
        assert(a =~= rest_a.push(x));
        lemma_on_port_push(rest_a, x, x.port);
        assert(on_port(a, x.port) == on_port(b, x.port));
        if b.len() == 0 {
            lemma_on_port_absent(b, x.port);
        }
        let y = b.last();
        let rest_b = b.drop_last();
        assert(b =~= rest_b.push(y));
        lemma_on_port_push(rest_b, y, y.port);
        assert(on_port(a, y.port) == on_port(b, y.port));
        // the last port of each list is reached in the other
        lemma_on_port_member(b, x.port, 0);
        let in_b = choose|k: int| 0 <= k < b.len() && b[k] == on_port(b, x.port)[0];
        assert(x.port <= y.port) by {
            if in_b < b.len() - 1 {
                assert(b[in_b].port <= b[b.len() - 1].port);
            }
        }
        lemma_on_port_member(a, y.port, 0);
        let in_a = choose|k: int| 0 <= k < a.len() && a[k] == on_port(a, y.port)[0];
        assert(y.port <= x.port) by {
            if in_a < a.len() - 1 {
                assert(a[in_a].port <= a[a.len() - 1].port);
            }
        }
        assert(x == y) by {
            assert(on_port(a, x.port).last() == x);
            assert(on_port(b, x.port).last() == y);
        }
        assert forall|port: u16| #[trigger] on_port(rest_a, port) == on_port(rest_b, port) by {
            lemma_on_port_push(rest_a, x, port);
            lemma_on_port_push(rest_b, y, port);
            assert(on_port(a, port) == on_port(b, port));
            if port == x.port {
                assert(on_port(rest_a, port) =~= on_port(rest_a, port).push(x).drop_last());
                assert(on_port(rest_b, port) =~= on_port(rest_b, port).push(y).drop_last());
            }
        }
        assert(ascending(rest_a)) by {
            assert forall|i: int, j: int| 0 <= i < j < rest_a.len() implies rest_a[i].port
                <= rest_a[j].port by {
                assert(a[i].port <= a[j].port);
            }
        }
        assert(ascending(rest_b)) by {
            assert forall|i: int, j: int| 0 <= i < j < rest_b.len() implies rest_b[i].port
                <= rest_b[j].port by {
                assert(b[i].port <= b[j].port);
            }
        }
        lemma_ascending_determined(rest_a, rest_b);
    }
}

/// Sorting by port has one outcome: two lists that are both `results` sorted
/// are equal.
pub proof fn lemma_sorted_unique(a: Seq<ScanResult>, b: Seq<ScanResult>, results: Seq<ScanResult>)
    requires
        sorted_from(a, results),
        sorted_from(b, results),
    ensures
        a == b,
{
    assert forall|port: u16| #[trigger] on_port(a, port) == on_port(b, port) by {
        assert(on_port(a, port) == on_port(results, port));
        assert(on_port(b, port) == on_port(results, port));
    }
    lemma_ascending_determined(a, b);
}

/// A result stands as often among the results of its port as in the whole list.
pub proof fn lemma_on_port_counts(results: Seq<ScanResult>, result: ScanResult)
    ensures
        on_port(results, result.port).to_multiset().count(result) == results.to_multiset().count(
            result,
        ),
    decreases results.len(),
{
    broadcast use vstd::multiset::group_multiset_axioms;

    if results.len() == 0 {
        lemma_on_port_absent(results, result.port);
        assert(results =~= Seq::<ScanResult>::empty());
    } else {
        let rest = results.drop_last();
        let last = results.last();
        let port = result.port;
        assert(results =~= rest.push(last));
        lemma_on_port_counts(rest, result);
        lemma_on_port_push(rest, last, port);
        vstd::seq_lib::to_multiset_build(rest, last);
        if last.port == port {
            vstd::seq_lib::to_multiset_build(on_port(rest, port), last);
        }
    }
}

/// Sorting loses no result and invents none: the sorted list holds every
/// result as often as the list it was sorted from.
pub proof fn lemma_sorted_keeps_results(sorted: Seq<ScanResult>, results: Seq<ScanResult>)
    requires
        sorted_from(sorted, results),
    ensures
        sorted.to_multiset() == results.to_multiset(),
        sorted.len() == results.len(),
{
    assert forall|result: ScanResult|
        sorted.to_multiset().count(result) == results.to_multiset().count(result) by {
        lemma_on_port_counts(sorted, result);
        lemma_on_port_counts(results, result);
        assert(on_port(sorted, result.port) == on_port(results, result.port));
    }
    assert(sorted.to_multiset() =~= results.to_multiset());
    sorted.to_multiset_ensures();
    results.to_multiset_ensures();
}

/// Two results that name the same port are both among the results of that port.
pub proof fn lemma_on_port_holds_both(results: Seq<ScanResult>, i: int, j: int)
    requires
        0 <= i < j < results.len(),
        results[i].port == results[j].port,
    ensures
        on_port(results, results[i].port).len() >= 2,
    decreases results.len(),
{
    let port = results[i].port;
    let rest = results.drop_last();
    assert(results =~= rest.push(results.last()));
    lemma_on_port_push(rest, results.last(), port);
    if j == results.len() - 1 {
        lemma_on_port_present(rest, i);
    } else {
        lemma_on_port_holds_both(rest, i, j);
    }
}

/// Where no port is named twice, every port has at most one result.
pub proof fn lemma_on_port_single(results: Seq<ScanResult>, port: u16)
    requires
        ports_distinct(results),
    ensures
        on_port(results, port).len() <= 1,
{
    if on_port(results, port).len() >= 2 {
        lemma_on_port_split(results, port);
    }
}

/// Where a port has two results or more, two places of `results` name it.
proof fn lemma_on_port_split(results: Seq<ScanResult>, port: u16)
    requires
        on_port(results, port).len() >= 2,
    ensures
        exists|i: int, j: int|
            0 <= i < j < results.len() && results[i].port == port && results[j].port == port,
    decreases results.len(),
{
    if results.len() == 0 {
        lemma_on_port_absent(results, port);
    } else {
        let rest = results.drop_last();
        let last = results.last();
        assert(results =~= rest.push(last));
        lemma_on_port_push(rest, last, port);
        if last.port == port {
            lemma_on_port_member(rest, port, 0);
            let i = choose|k: int| 0 <= k < rest.len() && rest[k] == on_port(rest, port)[0];
            assert(results[i].port == port && results[results.len() - 1].port == port);
        } else {
            lemma_on_port_split(rest, port);
            let (i, j) = choose|i: int, j: int|
                0 <= i < j < rest.len() && rest[i].port == port && rest[j].port == port;
            assert(results[i].port == port && results[j].port == port);
        }
    }
}

/// Sorting results among which no port is named twice gives a list whose
/// ports rise strictly.
pub proof fn lemma_sorted_strict(sorted: Seq<ScanResult>, results: Seq<ScanResult>)
    requires
        sorted_from(sorted, results),
        ports_distinct(results),
    ensures
        strictly_ascending(sorted),
{
    assert forall|i: int, j: int| 0 <= i < j < sorted.len() implies sorted[i].port
        < sorted[j].port by {
        if sorted[i].port == sorted[j].port {
            lemma_on_port_holds_both(sorted, i, j);
            lemma_on_port_single(results, sorted[i].port);
            assert(on_port(sorted, sorted[i].port) == on_port(results, sorted[i].port));
        }
    }
}

/// Merges two ascending lists into one, taking from `left` first among equal ports.
fn merge(left: &Vec<ScanResult>, right: &Vec<ScanResult>) -> (merged: Vec<ScanResult>)
    requires
        ascending(left@),
        ascending(right@),
    ensures
        ascending(merged@),
        merged.len() == left.len() + right.len(),
        forall|port: u16| #[trigger]
            on_port(merged@, port) == on_port(left@, port) + on_port(right@, port),
{
    let mut merged: Vec<ScanResult> = Vec::new();
    let mut i: usize = 0;
    let mut j: usize = 0;
    proof {
        assert forall|port: u16| #[trigger]
            on_port(merged@, port) == on_port(left@.take(0), port) + on_port(
                right@.take(0),
                port,
            ) by {
            lemma_on_port_absent(merged@, port);
            lemma_on_port_absent(left@.take(0), port);
            lemma_on_port_absent(right@.take(0), port);
        }
    }
    while i < left.len() || j < right.len()
        invariant
            i <= left.len(),
            j <= right.len(),
            merged.len() == i + j,
            ascending(left@),
            ascending(right@),
            ascending(merged@),
            forall|k: int|
                0 <= k < merged.len() && i < left.len() ==> merged[k].port <= left[i as int].port,
            forall|k: int|
                0 <= k < merged.len() && j < right.len() ==> merged[k].port
                    <= right[j as int].port,
            forall|k: int| 0 <= k < j && i < left.len() ==> right[k].port < left[i as int].port,
            forall|port: u16| #[trigger]
                on_port(merged@, port) == on_port(left@.take(i as int), port) + on_port(
                    right@.take(j as int),
                    port,
                ),
        decreases left.len() - i + right.len() - j,
    {
        let from_left: bool = if i >= left.len() {
            false
        } else if j >= right.len() {
            true
        } else {
            left[i].port <= right[j].port
        };
        let ghost before = merged@;
        if from_left {
            let next: ScanResult = left[i];
            merged.push(next);
            proof {
                assert(left@.take(i + 1) =~= left@.take(i as int).push(next));
                assert forall|port: u16| #[trigger]
                    on_port(merged@, port) == on_port(left@.take(i + 1), port) + on_port(
                        right@.take(j as int),
                        port,
                    ) by {
                    lemma_on_port_push(before, next, port);
                    lemma_on_port_push(left@.take(i as int), next, port);
                    let seen_left = on_port(left@.take(i as int), port);
                    let seen_right = on_port(right@.take(j as int), port);
                    assert(on_port(before, port) == seen_left + seen_right);
                    if next.port == port {
                        lemma_on_port_absent(right@.take(j as int), port);
                        assert(seen_left.push(next) + seen_right =~= (seen_left + seen_right).push(
                            next,
                        ));
                    }
                }
            }
            i = i + 1;
        } else {
            let next: ScanResult = right[j];
            merged.push(next);
            proof {
                assert(right@.take(j + 1) =~= right@.take(j as int).push(next));
                assert forall|port: u16| #[trigger]
                    on_port(merged@, port) == on_port(left@.take(i as int), port) + on_port(
                        right@.take(j + 1),
                        port,
                    ) by {
                    lemma_on_port_push(before, next, port);
                    lemma_on_port_push(right@.take(j as int), next, port);
                    let seen_left = on_port(left@.take(i as int), port);
                    let seen_right = on_port(right@.take(j as int), port);
                    assert(on_port(before, port) == seen_left + seen_right);
                    if next.port == port {
                        assert(seen_left + seen_right.push(next) =~= (seen_left + seen_right).push(
                            next,
                        ));
                    }
                }
            }
            j = j + 1;
        }
    }
    proof {
        assert(left@.take(i as int) =~= left@);
        assert(right@.take(j as int) =~= right@);
    }
    merged
}

/// Sorts the results that stand at `lo` up to `hi` in `results`.
fn sort_span(results: &Vec<ScanResult>, lo: usize, hi: usize) -> (sorted: Vec<ScanResult>)
    requires
        lo <= hi <= results.len(),
    ensures
        sorted_from(sorted@, results@.subrange(lo as int, hi as int)),
        sorted.len() == hi - lo,
    decreases hi - lo,
{
    if hi - lo <= 1 {
        let mut sorted: Vec<ScanResult> = Vec::new();
        if hi - lo == 1 {
            sorted.push(results[lo]);
        }
        assert(sorted@ =~= results@.subrange(lo as int, hi as int));
        sorted
    } else {
        let mid: usize = lo + (hi - lo) / 2;
        let left = sort_span(results, lo, mid);
        let right = sort_span(results, mid, hi);
        let sorted = merge(&left, &right);
        proof {
            let all = results@.subrange(lo as int, hi as int);
            let low = results@.subrange(lo as int, mid as int);
            let high = results@.subrange(mid as int, hi as int);
            assert(all =~= low + high);
            assert forall|port: u16| #[trigger] on_port(sorted@, port) == on_port(all, port) by {
                lemma_on_port_concat(low, high, port);
                assert(on_port(left@, port) == on_port(low, port));
                assert(on_port(right@, port) == on_port(high, port));
            }
        }
        sorted
    }
}

/// Sorts the results by port, ascending. Results for the same port keep the
/// order in which they stood.
pub fn sort_by_port(results: &mut Vec<ScanResult>)
    ensures
        sorted_from(final(results)@, old(results)@),
        final(results)@.to_multiset() == old(results)@.to_multiset(),
        final(results).len() == old(results).len(),
{
    let sorted = sort_span(results, 0, results.len());
    proof {
        assert(results@.subrange(0, results.len() as int) =~= results@);
        lemma_sorted_keeps_results(sorted@, results@);
    }
    *results = sorted;
}

/// The results whose state is `state`, in the order in which they stand.
pub open spec fn in_state(results: Seq<ScanResult>, state: PortState) -> Seq<ScanResult> {
    results.filter(|r: ScanResult| r.state == state)
}

/// The results whose state is none of `ignored`, in the order in which they stand.
pub open spec fn shown(results: Seq<ScanResult>, ignored: Seq<PortState>) -> Seq<ScanResult> {
    results.filter(|r: ScanResult| !ignored.contains(r.state))
}

/// How a result's port is labelled in a report: the port number, a slash,
/// and the protocol's name.
pub open spec fn port_label_spec(result: ScanResult) -> Seq<char> {
    decimal_text(result.port as nat) + seq!['/'] + result.protocol.name_spec()
}

/// How many of `results` are in `state`.
pub fn count_in_state(results: &Vec<ScanResult>, state: PortState) -> (count: usize)
    ensures
        count == in_state(results@, state).len(),
{
    let ghost pred = |r: ScanResult| r.state == state;
    let mut count: usize = 0;
    let mut k: usize = 0;
    proof {
        reveal(Seq::filter);
        assert(results@.take(0).filter(pred) =~= Seq::<ScanResult>::empty());
    }
    while k < results.len()
        invariant
            k <= results.len(),
            pred == |r: ScanResult| r.state == state,
            count == results@.take(k as int).filter(pred).len(),
            count <= k,
        decreases results.len() - k,
    {
        proof {
            assert(results@.take(k + 1) =~= results@.take(k as int).push(results[k as int]));
            results@.take(k as int).lemma_filter_push(results[k as int], pred);
        }
        if results[k].state == state {
            count = count + 1;
        }
        k = k + 1;
    }
    assert(results@.take(k as int) =~= results@);
    count
}

/// Whether `state` is one of `states`.
fn is_among(states: &Vec<PortState>, state: PortState) -> (found: bool)
    ensures
        found == states@.contains(state),
{
    let mut k: usize = 0;
    while k < states.len()
        invariant
            k <= states.len(),
            forall|j: int| 0 <= j < k ==> states[j] != state,
        decreases states.len() - k,
    {
        if states[k] == state {
            return true;
        }
        k = k + 1;
    }
    false
}

/// The results to show when the states in `ignored` are left out of a
/// report: all others, in the order in which they stand.
pub fn without_states(results: &Vec<ScanResult>, ignored: &Vec<PortState>) -> (kept: Vec<
    ScanResult,
>)
    ensures
        kept@ == shown(results@, ignored@),
{
    let ghost pred = |r: ScanResult| !ignored@.contains(r.state);
    let mut kept: Vec<ScanResult> = Vec::new();
    let mut k: usize = 0;
    proof {
        reveal(Seq::filter);
        assert(results@.take(0).filter(pred) =~= Seq::<ScanResult>::empty());
    }
    while k < results.len()
        invariant
            k <= results.len(),
            pred == |r: ScanResult| !ignored@.contains(r.state),
            kept@ == results@.take(k as int).filter(pred),
        decreases results.len() - k,
    {
        proof {
            assert(results@.take(k + 1) =~= results@.take(k as int).push(results[k as int]));
            results@.take(k as int).lemma_filter_push(results[k as int], pred);
        }
        if !is_among(ignored, results[k].state) {
            kept.push(results[k]);
        }
        k = k + 1;
    }
    assert(results@.take(k as int) =~= results@);
    kept
}

/// The label of a result's port in a report, such as `22/tcp`.
pub fn port_label(result: &ScanResult) -> (label: String)
    ensures
        label@ == port_label_spec(*result),
{
    let mut label = String::new();
    write_decimal(&mut label, result.port);
    proof {
        reveal_strlit("/");
    }
    let ghost number = label@;
    label.append("/");
    assert(label@ =~= number + seq!['/']);
    label.append(result.protocol.name());
    label
}

} // verus!
