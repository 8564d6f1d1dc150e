//! Splitting a port range into one contiguous chunk per worker.
//!
//! The number of chunks never exceeds the worker cap nor the number of ports.
//! Every chunk but the last has the same size; the last holds what is left.

use crate::scanners::PortRange;
use vstd::prelude::*;

verus! {

/// The smaller of two integers.
pub open spec fn lesser(a: int, b: int) -> int {
    if a < b {
        a
    } else {
        b
    }
}

/// `n` divided by `d`, rounded up.
pub open spec fn ceil_div(n: int, d: int) -> int {
    (n + d - 1) / d
}

/// The size of every chunk but the last, for `n` ports and at most `cap` workers.
pub open spec fn chunk_size(n: int, cap: int) -> int {
    ceil_div(n, lesser(cap, n))
}

/// How many chunks `n` ports fall into with at most `cap` workers.
pub open spec fn chunk_count(n: int, cap: int) -> int {
    ceil_div(n, chunk_size(n, cap))
}

/// The `i`-th chunk of `range` for at most `cap` workers.
pub open spec fn chunk_at(range: PortRange, cap: int, i: int) -> PortRange {
    let size = chunk_size(range.len_spec(), cap);
    let first = range.start + i * size;
    PortRange { start: first as u16, end: lesser(first + size - 1, range.end as int) as u16 }
}

/// The chunks of `range` for at most `cap` workers, in ascending order.
pub open spec fn partition_spec(range: PortRange, cap: int) -> Seq<PortRange> {
    Seq::new(chunk_count(range.len_spec(), cap) as nat, |i: int| chunk_at(range, cap, i))
}

/// Rounding up gives the least multiple of `d` that reaches `n`.
pub proof fn lemma_ceil_div_bounds(n: int, d: int)
    requires
        n >= 1,
        d >= 1,
    ensures
        ceil_div(n, d) >= 1,
        (ceil_div(n, d) - 1) * d < n <= ceil_div(n, d) * d,
{
    let x = n + d - 1;
    vstd::arithmetic::div_mod::lemma_fundamental_div_mod(x, d);
    vstd::arithmetic::div_mod::lemma_mod_bound(x, d);
    let q = x / d;
    assert(x == d * q + x % d);
    assert(d * q == q * d) by (nonlinear_arith);
    assert((q - 1) * d == q * d - d) by (nonlinear_arith);
    assert(q >= 1) by (nonlinear_arith)
        requires
            q * d >= n,
            n >= 1,
            d >= 1,
    ;
}

/// The only `k` whose multiple of `d` first reaches `n` is `n / d` rounded up.
pub proof fn lemma_ceil_div_unique(n: int, d: int, k: int)
    requires
        n >= 1,
        d >= 1,
        (k - 1) * d < n <= k * d,
    ensures
        k == ceil_div(n, d),
{
    lemma_ceil_div_bounds(n, d);
    let q = ceil_div(n, d);
    assert(k == q) by (nonlinear_arith)
        requires
            d >= 1,
            (k - 1) * d < n <= k * d,
            (q - 1) * d < n <= q * d,
    ;
}

/// The chunk size is at least one port and the chunks number at least one and
/// at most the cap and the number of ports.
pub proof fn lemma_chunk_bounds(n: int, cap: int)
    requires
        n >= 1,
        cap >= 1,
    ensures
        1 <= chunk_size(n, cap) <= n,
        1 <= chunk_count(n, cap) <= lesser(cap, n),
        (chunk_count(n, cap) - 1) * chunk_size(n, cap) < n,
        n <= chunk_count(n, cap) * chunk_size(n, cap),
{
    let m = lesser(cap, n);
    let size = chunk_size(n, cap);
    let count = chunk_count(n, cap);
    lemma_ceil_div_bounds(n, m);
    assert(size <= n) by (nonlinear_arith)
        requires
            (size - 1) * m < n,
            m >= 1,
            size >= 1,
    ;
    lemma_ceil_div_bounds(n, size);
    assert(count <= m) by (nonlinear_arith)
        requires
            (count - 1) * size < n,
            n <= size * m,
            size >= 1,
    ;
}

/// Where the `i`-th chunk of a partition starts and ends: `i` full chunks
/// after the range's first port, and never past its last port.
pub proof fn lemma_chunk_position(range: PortRange, cap: int, i: int)
    requires
        range.wf(),
        cap >= 1,
        0 <= i < chunk_count(range.len_spec(), cap),
    ensures
        chunk_at(range, cap, i).start == range.start + i * chunk_size(range.len_spec(), cap),
        chunk_at(range, cap, i).end == lesser(
            range.start + (i + 1) * chunk_size(range.len_spec(), cap) - 1,
            range.end as int,
        ),
        range.start <= chunk_at(range, cap, i).start <= chunk_at(range, cap, i).end <= range.end,
        i < chunk_count(range.len_spec(), cap) - 1 ==> chunk_at(range, cap, i).end
            == chunk_at(range, cap, i).start + chunk_size(range.len_spec(), cap) - 1,
        i == chunk_count(range.len_spec(), cap) - 1 ==> chunk_at(range, cap, i).end == range.end,
{
    let n = range.len_spec();
    let size = chunk_size(n, cap);
    let count = chunk_count(n, cap);
    lemma_chunk_bounds(n, cap);
    assert(0 <= i * size <= (count - 1) * size) by (nonlinear_arith)
        requires
            0 <= i <= count - 1,
            size >= 1,
    ;
    assert((i + 1) * size == i * size + size) by (nonlinear_arith);
    if i < count - 1 {
        assert((i + 1) * size <= (count - 1) * size) by (nonlinear_arith)
            requires
                i + 1 <= count - 1,
                size >= 1,
        ;
    } else {
        assert((i + 1) * size == count * size);
    }
}

/// The chunks of a partition are contiguous: none is empty, the first starts
/// where the range starts, each next one starts right after the one before it
/// ends, and the last ends where the range ends. Every chunk but the last holds
/// `chunk_size` ports, and the last holds no more.
pub proof fn lemma_partition_contiguous(range: PortRange, cap: int)
    requires
        range.wf(),
        cap >= 1,
    ensures
        partition_spec(range, cap).len() == chunk_count(range.len_spec(), cap),
        partition_spec(range, cap).len() >= 1,
        partition_spec(range, cap).first().start == range.start,
        partition_spec(range, cap).last().end == range.end,
        forall|i: int|
            0 <= i < partition_spec(range, cap).len() ==> (#[trigger] partition_spec(
                range,
                cap,
            )[i]).wf(),
        forall|i: int|
            0 <= i < partition_spec(range, cap).len() - 1 ==> partition_spec(range, cap)[i
                + 1].start == (#[trigger] partition_spec(range, cap)[i]).end + 1,
        forall|i: int|
            0 <= i < partition_spec(range, cap).len() - 1 ==> (#[trigger] partition_spec(
                range,
                cap,
            )[i]).len_spec() == chunk_size(range.len_spec(), cap),
        1 <= partition_spec(range, cap).last().len_spec() <= chunk_size(range.len_spec(), cap),
{
    let n = range.len_spec();
    let size = chunk_size(n, cap);
    let count = chunk_count(n, cap);
    let chunks = partition_spec(range, cap);
    lemma_chunk_bounds(n, cap);
    lemma_chunk_position(range, cap, 0);
    lemma_chunk_position(range, cap, count - 1);
    assert(0 * size == 0);
    assert forall|i: int| 0 <= i < chunks.len() implies (#[trigger] chunks[i]).wf() by {
        lemma_chunk_position(range, cap, i);
    }
    assert forall|i: int| 0 <= i < chunks.len() - 1 implies chunks[i + 1].start == (
    #[trigger] chunks[i]).end + 1 && chunks[i].len_spec() == size by {
        lemma_chunk_position(range, cap, i);
        lemma_chunk_position(range, cap, i + 1);
    }
}

/// The chunks of a partition cover exactly the range, and no two overlap:
/// a port lies in the range just when some chunk holds it, and then only one does.
pub proof fn lemma_partition_covers(range: PortRange, cap: int)
    requires
        range.wf(),
        cap >= 1,
    ensures
        forall|port: u16|
            range.has(port) <==> exists|i: int|
                0 <= i < partition_spec(range, cap).len() && #[trigger] partition_spec(
                    range,
                    cap,
                )[i].has(port),
        forall|port: u16, i: int, j: int|
            #![trigger
                partition_spec(range, cap)[i].has(port),
                partition_spec(range, cap)[j].has(port)
            ]
            0 <= i < partition_spec(range, cap).len() && 0 <= j < partition_spec(range, cap).len()
                && partition_spec(range, cap)[i].has(port) && partition_spec(range, cap)[j].has(
                port,
            ) ==> i == j,
{
    let n = range.len_spec();
    let size = chunk_size(n, cap);
    let count = chunk_count(n, cap);
    let chunks = partition_spec(range, cap);
    lemma_chunk_bounds(n, cap);
    assert forall|port: u16| range.has(port) implies exists|i: int|
        0 <= i < chunks.len() && #[trigger] chunks[i].has(port) by {
        let i = chunk_index(range, cap, port);
        lemma_chunk_index(range, cap, port);
        assert(chunks[i].has(port));
    }
    assert forall|port: u16|
        (exists|i: int| 0 <= i < chunks.len() && #[trigger] chunks[i].has(port)) implies range.has(
        port,
    ) by {
        let i = choose|i: int| 0 <= i < chunks.len() && #[trigger] chunks[i].has(port);
        lemma_chunk_position(range, cap, i);
    }
    assert forall|port: u16, i: int, j: int|
        #![trigger chunks[i].has(port), chunks[j].has(port)]
        0 <= i < chunks.len() && 0 <= j < chunks.len() && chunks[i].has(port) && chunks[j].has(
            port,
        ) implies i == j by {
        lemma_chunk_position(range, cap, i);
        lemma_chunk_position(range, cap, j);
        if i < j {
            assert((i + 1) * size <= j * size) by (nonlinear_arith)
                requires
                    i + 1 <= j,
                    size >= 1,
            ;
        }
        if j < i {
            assert((j + 1) * size <= i * size) by (nonlinear_arith)
                requires
                    j + 1 <= i,
                    size >= 1,
            ;
        }
    }
}

/// The index of the chunk that holds `port`.
pub open spec fn chunk_index(range: PortRange, cap: int, port: u16) -> int {
    (port - range.start) / chunk_size(range.len_spec(), cap)
}

/// Every port of the range lies in the chunk that `chunk_index` names.
pub proof fn lemma_chunk_index(range: PortRange, cap: int, port: u16)
    requires
        range.wf(),
        cap >= 1,
        range.has(port),
    ensures
        0 <= chunk_index(range, cap, port) < chunk_count(range.len_spec(), cap),
        chunk_at(range, cap, chunk_index(range, cap, port)).has(port),
{
    let n = range.len_spec();
    let size = chunk_size(n, cap);
    let count = chunk_count(n, cap);
    let offset = port - range.start;
    let i = chunk_index(range, cap, port);
    lemma_chunk_bounds(n, cap);
    vstd::arithmetic::div_mod::lemma_fundamental_div_mod(offset, size);
    vstd::arithmetic::div_mod::lemma_mod_bound(offset, size);
    assert(size * i == i * size) by (nonlinear_arith);
    assert(i >= 0) by (nonlinear_arith)
        requires
            i * size + size > 0,
            size >= 1,
    ;
    assert(i < count) by (nonlinear_arith)
        requires
            i * size <= offset,
            offset < n,
            n <= count * size,
            size >= 1,
    ;
    lemma_chunk_position(range, cap, i);
    assert((i + 1) * size == i * size + size) by (nonlinear_arith);
}

/// The partition has as many chunks as the smaller of the cap and the number
/// of ports whenever one chunk fewer could not hold every port.
pub proof fn lemma_chunk_count_reaches_cap(n: int, cap: int)
    requires
        n >= 1,
        cap >= 1,
        (lesser(cap, n) - 1) * chunk_size(n, cap) < n,
    ensures
        chunk_count(n, cap) == lesser(cap, n),
{
    let m = lesser(cap, n);
    lemma_ceil_div_bounds(n, m);
    lemma_ceil_div_unique(n, chunk_size(n, cap), m);
}

/// Where one chunk fewer than the smaller of the cap and the number of ports
/// already holds every port, the partition has fewer chunks than that.
pub proof fn lemma_chunk_count_short_of_cap(n: int, cap: int)
    requires
        n >= 1,
        cap >= 1,
        (lesser(cap, n) - 1) * chunk_size(n, cap) >= n,
    ensures
        chunk_count(n, cap) < lesser(cap, n),
{
    lemma_chunk_bounds(n, cap);
}

/// A range with no more ports than the cap gets one chunk per port.
pub proof fn lemma_one_port_per_chunk(n: int, cap: int)
    requires
        1 <= n <= cap,
    ensures
        chunk_size(n, cap) == 1,
        chunk_count(n, cap) == n,
{
    lemma_ceil_div_unique(n, n, 1);
    lemma_ceil_div_unique(n, 1, n);
}

/// A cap that divides the number of ports evenly is reached exactly.
pub proof fn lemma_even_split(n: int, cap: int)
    requires
        1 <= cap <= n,
        n % cap == 0,
    ensures
        chunk_size(n, cap) == n / cap,
        chunk_count(n, cap) == cap,
{
    vstd::arithmetic::div_mod::lemma_fundamental_div_mod(n, cap);
    let size = n / cap;
    assert(cap * size == size * cap) by (nonlinear_arith);
    assert(size >= 1) by (nonlinear_arith)
        requires
            size * cap == n,
            n >= 1,
            cap >= 1,
    ;
    assert((size - 1) * cap < n) by (nonlinear_arith)
        requires
            size * cap == n,
            cap >= 1,
    ;
    lemma_ceil_div_unique(n, cap, size);
    assert((cap - 1) * size < n) by (nonlinear_arith)
        requires
            size * cap == n,
            size >= 1,
    ;
    assert(cap * size == n);
    lemma_ceil_div_unique(n, size, cap);
}

/// Splits `range` into contiguous chunks for at most `cap` workers.
pub fn partition(range: &PortRange, cap: usize) -> (chunks: Vec<PortRange>)
    requires
        range.wf(),
        cap >= 1,
    ensures
        chunks@ == partition_spec(*range, cap as int),
        chunks.len() == chunk_count(range.len_spec(), cap as int),
        1 <= chunks.len() <= cap,
{
    let n: u32 = range.len();
    let m: u32 = if cap < n as usize {
        cap as u32
    } else {
        n
    };
    let size: u32 = (n + m - 1) / m;
    let end: u32 = range.end as u32;
    proof {
        lemma_chunk_bounds(n as int, cap as int);
    }
    let mut chunks: Vec<PortRange> = Vec::new();
    let mut first: u32 = range.start as u32;
    while first <= end
        invariant
            range.wf(),
            cap >= 1,
            n == range.len_spec(),
            size == chunk_size(n as int, cap as int),
            1 <= size <= n,
            end == range.end,
            first == range.start + chunks.len() * size,
            chunks.len() >= 1 ==> (chunks.len() - 1) * size < n,
            chunks@ == Seq::new(chunks.len() as nat, |i: int| chunk_at(*range, cap as int, i)),
        decreases end + size - first,
    {
        let last: u32 = if first + size - 1 < end {
            first + size - 1
        } else {
            end
        };
        let ghost before = chunks@;
        chunks.push(PortRange { start: first as u16, end: last as u16 });
        assert(chunks@ =~= Seq::new(chunks.len() as nat, |i: int| chunk_at(*range, cap as int, i)));
        assert((before.len() + 1) * size == before.len() * size + size) by (nonlinear_arith);
        first = first + size;
    }
    proof {
        let k = chunks.len() as int;
        assert(k >= 1) by {
            if k == 0 {
                assert(0 * size == 0);
            }
        }
        lemma_ceil_div_unique(n as int, size as int, k);
        assert(chunks@ =~= partition_spec(*range, cap as int));
    }
    chunks
}

} // verus!
