//! Framing of the parameter description on the wire.
//!
//! The renderer describes its parameters in datagram-sized chunks of at most
//! [`PER_CHUNK`] descriptors, numbered from 0 and each carrying the chunk
//! count; the UI collects them in a [`DescribeBuffer`] until the last one
//! arrives.
use vstd::prelude::*;

verus! {

/// Default UDP port the renderer listens on.
pub const DEFAULT_PORT: u16 = 9471;

/// Upper bound on a single datagram.
pub const MAX_DATAGRAM: usize = 60 * 1024;

/// Descriptors per chunk: a descriptor with a long doc string is a few
/// hundred bytes, and a chunk must fit one datagram.
pub const PER_CHUNK: usize = 64;

/// One chunk of a description: its number, the number of chunks, and the
/// range of descriptors it carries.
#[derive(Clone, Copy, Debug, PartialEq, Eq, Structural)]
pub struct ChunkRange {
    pub chunk: u16,
    pub chunks: u16,
    pub start: usize,
    pub end: usize,
}

/// How many chunks `n` descriptors take: at least one, even for none.
pub open spec fn chunk_count(n: int) -> int {
    if n == 0 {
        1
    } else {
        (n + PER_CHUNK - 1) / (PER_CHUNK as int)
    }
}

/// Chunk `i` of `n` descriptors; numbers are sent as `u16`.
pub open spec fn chunk_at(n: int, i: int) -> ChunkRange {
    ChunkRange {
        chunk: i as u16,
        chunks: chunk_count(n) as u16,
        start: (i * PER_CHUNK) as usize,
        end: if (i + 1) * PER_CHUNK < n {
            ((i + 1) * PER_CHUNK) as usize
        } else {
            n as usize
        },
    }
}

/// The chunks that describe `n` descriptors, in order.
pub fn describe_chunks(n: usize) -> (r: Vec<ChunkRange>)
    ensures
        r@.len() == chunk_count(n as int),
        forall|i: int| 0 <= i < r@.len() ==> r@[i] == chunk_at(n as int, i),
{
    let count: usize = if n == 0 {
        1
    } else {
        n / PER_CHUNK + if n % PER_CHUNK == 0 {
            0
        } else {
            1
        }
    };
    assert(count == chunk_count(n as int));
    let mut r: Vec<ChunkRange> = Vec::new();
    let mut i: usize = 0;
    while i < count
        invariant
            i <= count,
            count == chunk_count(n as int),
            count <= n / 64 + 1,
            r@.len() == i,
            forall|j: int| 0 <= j < i ==> r@[j] == chunk_at(n as int, j),
        decreases count - i,
    {
        assert(i * 64 <= n) by (nonlinear_arith)
            requires
                i < count,
                count == chunk_count(n as int),
                n > 0 ==> count * 64 < n + 64,
                n == 0 ==> count == 1,
        ;
        let start = i * PER_CHUNK;
        let end = if n - start > PER_CHUNK {
            start + PER_CHUNK
        } else {
            n
        };
        r.push(ChunkRange { chunk: i as u16, chunks: count as u16, start, end });
        i = i + 1;
    }
    r
}

/// Collects the chunks of a description.
pub struct DescribeBuffer<T> {
    items: Vec<T>,
}

impl<T> View for DescribeBuffer<T> {
    type V = Seq<T>;

    closed spec fn view(&self) -> Seq<T> {
        self.items@
    }
}

/// What a buffer holds after a chunk that does not complete the description.
pub open spec fn collected<T>(held: Seq<T>, chunk: u16, part: Seq<T>) -> Seq<T> {
    if chunk == 0 {
        part
    } else {
        held + part
    }
}

impl<T> DescribeBuffer<T> {
    /// An empty buffer.
    pub fn new() -> (b: DescribeBuffer<T>)
        ensures
            b@ == Seq::<T>::empty(),
    {
        DescribeBuffer { items: Vec::new() }
    }

    /// Take chunk number `chunk` of `chunks`. Chunk 0 starts over. The last
    /// chunk hands back everything collected and empties the buffer.
    pub fn receive(&mut self, chunk: u16, chunks: u16, part: Vec<T>) -> (r: Option<Vec<T>>)
        requires
            chunk < u16::MAX,
        ensures
            chunk + 1 == chunks ==> {
                &&& r matches Some(all)
                &&& all@ == collected(old(self)@, chunk, part@)
                &&& final(self)@ == Seq::<T>::empty()
            },
            chunk + 1 != chunks ==> {
                &&& r is None
                &&& final(self)@ == collected(old(self)@, chunk, part@)
            },
    {
        if chunk == 0 {
            self.items.clear();
        }
        let mut part = part;
        self.items.append(&mut part);
        if chunk + 1 == chunks {
            let mut all: Vec<T> = Vec::new();
            std::mem::swap(&mut all, &mut self.items);
            Some(all)
        } else {
            None
        }
    }
}

/// The parts of `p` that the chunks describing it carry, with their numbers.
pub open spec fn describe_parts<T>(p: Seq<T>) -> Seq<(u16, u16, Seq<T>)> {
    Seq::new(
        chunk_count(p.len() as int) as nat,
        |i: int|
            {
                let c = chunk_at(p.len() as int, i);
                (c.chunk, c.chunks, p.subrange(c.start as int, c.end as int))
            },
    )
}

/// Chunks `i..` fed to a buffer holding `held`: what the completing chunk
/// hands back, if one does.
pub open spec fn reassemble<T>(held: Seq<T>, msgs: Seq<(u16, u16, Seq<T>)>, i: int) -> Option<Seq<T>>
    decreases msgs.len() - i,
{
    if i < 0 || i >= msgs.len() {
        None
    } else {
        let (chunk, chunks, part) = msgs[i];
        if chunk + 1 == chunks {
            Some(collected(held, chunk, part))
        } else {
            reassemble(collected(held, chunk, part), msgs, i + 1)
        }
    }
}

proof fn lemma_reassemble_from<T>(p: Seq<T>, held: Seq<T>, i: int)
    requires
        p.len() <= PER_CHUNK * 65535,
        0 <= i < chunk_count(p.len() as int),
        i > 0 ==> held == p.subrange(0, i * PER_CHUNK),
    ensures
        reassemble(held, describe_parts(p), i) == Some(p),
    decreases chunk_count(p.len() as int) - i,
{
    let n = p.len() as int;
    let count = chunk_count(n);
    let msgs = describe_parts(p);
    assert(count <= 65535);
    let c = chunk_at(n, i);
    assert(c.chunk == i);
    assert(c.chunks == count);
    assert(i * PER_CHUNK <= n) by (nonlinear_arith)
        requires
            0 <= i < count,
            count == chunk_count(n),
            n > 0 ==> count * 64 < n + 64,
            n == 0 ==> count == 1,
    ;
    let part = p.subrange(c.start as int, c.end as int);
    let now = collected(held, c.chunk, part);
    assert(now =~= p.subrange(0, c.end as int));
    if i + 1 == count {
        assert(c.end == n) by (nonlinear_arith)
            requires
                i + 1 == count,
                count == chunk_count(n),
                n > 0 ==> count * 64 >= n,
                c.end == (if (i + 1) * 64 < n { (i + 1) * 64 } else { n }),
        ;
        assert(now =~= p);
    } else {
        assert(c.end == (i + 1) * PER_CHUNK) by (nonlinear_arith)
            requires
                i + 1 < count,
                count == chunk_count(n),
                n > 0 ==> (count - 1) * 64 < n,
                c.end == (if (i + 1) * 64 < n { (i + 1) * 64 } else { n }),
        ;
        lemma_reassemble_from(p, now, i + 1);
    }
}

/// Feeding the chunks that describe `p`, in order, to a buffer in any state
/// hands back exactly `p` (when the chunk numbers fit their `u16`).
pub proof fn law_describe_round_trip<T>(p: Seq<T>, held: Seq<T>)
    requires
        p.len() <= PER_CHUNK * 65535,
    ensures
        reassemble(held, describe_parts(p), 0) == Some(p),
{
    lemma_reassemble_from(p, held, 0);
}

/// The parts of the first `i` messages, one after another.
pub open spec fn joined<T>(msgs: Seq<(u16, u16, Seq<T>)>, i: int) -> Seq<T>
    decreases i,
{
    if i <= 0 {
        Seq::empty()
    } else {
        joined(msgs, i - 1) + msgs[i - 1].2
    }
}

proof fn lemma_chunk_bounds(n: int, i: int)
    requires
        0 <= n,
        0 <= i < chunk_count(n),
    ensures
        i * PER_CHUNK <= n,
        n > 0 ==> i * PER_CHUNK < n,
{
    let count = chunk_count(n);
    assert(n > 0 ==> count * 64 < n + 64) by (nonlinear_arith)
        requires
            n > 0 ==> count == (n + 63) / 64,
    ;
    vstd::arithmetic::mul::lemma_mul_inequality(i, count - 1, 64);
    assert((count - 1) * 64 == count * 64 - 64) by (nonlinear_arith);
}

proof fn lemma_joined<T>(p: Seq<T>, i: int)
    requires
        p.len() <= PER_CHUNK * 65535,
        0 <= i <= chunk_count(p.len() as int),
    ensures
        joined(describe_parts(p), i) == p.subrange(
            0,
            if i * PER_CHUNK < p.len() {
                i * PER_CHUNK
            } else {
                p.len() as int
            },
        ),
    decreases i,
{
    if i > 0 {
        lemma_joined(p, i - 1);
        lemma_chunk_bounds(p.len() as int, i - 1);
        let c = chunk_at(p.len() as int, i - 1);
        assert(c.start == (i - 1) * PER_CHUNK);
        assert(joined(describe_parts(p), i) =~= p.subrange(0, c.end as int));
    }
}

/// How a parameter list is split into messages: `max(1, ⌈n / 64⌉)`
/// messages, message `i` numbered `i` of that count, each carrying at most
/// [`PER_CHUNK`] descriptors and at least one unless the list is empty, and
/// all their parts one after another giving back the list (when the message
/// numbers fit their `u16`).
pub proof fn law_describe_parts<T>(p: Seq<T>)
    requires
        p.len() <= PER_CHUNK * 65535,
    ensures
        describe_parts(p).len() == chunk_count(p.len() as int),
        p.len() == 0 ==> chunk_count(p.len() as int) == 1,
        p.len() > 0 ==> (chunk_count(p.len() as int) - 1) * PER_CHUNK < p.len() <= chunk_count(p.len() as int)
            * PER_CHUNK,
        forall|i: int|
            0 <= i < describe_parts(p).len() ==> {
                let (chunk, chunks, part) = #[trigger] describe_parts(p)[i];
                &&& chunk == i
                &&& chunks == describe_parts(p).len()
                &&& part.len() <= PER_CHUNK
                &&& p.len() > 0 ==> part.len() > 0
            },
        joined(describe_parts(p), describe_parts(p).len() as int) == p,
{
    let n = p.len() as int;
    let count = chunk_count(n);
    assert(n > 0 ==> (count - 1) * 64 < n <= count * 64) by (nonlinear_arith)
        requires
            n > 0 ==> count == (n + 63) / 64,
    ;
    if count > 65535 {
        vstd::arithmetic::mul::lemma_mul_inequality(65535, count - 1, 64);
    }
    assert forall|i: int| 0 <= i < describe_parts(p).len() implies {
        let (chunk, chunks, part) = #[trigger] describe_parts(p)[i];
        &&& chunk == i
        &&& chunks == describe_parts(p).len()
        &&& part.len() <= PER_CHUNK
        &&& p.len() > 0 ==> part.len() > 0
    } by {
        lemma_chunk_bounds(n, i);
    }
    lemma_joined(p, count);
    assert(count * PER_CHUNK >= n) by (nonlinear_arith)
        requires
            n > 0 ==> count == (n + 63) / 64,
            n == 0 ==> count == 1,
            n >= 0,
    ;
    assert(p.subrange(0, n) =~= p);
}

/// Splits a parameter description into its messages' parts: number, count
/// and the descriptors each carries, as [`describe_parts`] gives them.
pub fn describe<T>(params: Vec<T>) -> (r: Vec<(u16, u16, Vec<T>)>)
    ensures
        r@.len() == describe_parts(params@).len(),
        forall|i: int|
            0 <= i < r@.len() ==> {
                let (chunk, chunks, part) = #[trigger] r@[i];
                &&& chunk == describe_parts(params@)[i].0
                &&& chunks == describe_parts(params@)[i].1
                &&& part@ == describe_parts(params@)[i].2
            },
{
    let ghost p = params@;
    let n = params.len();
    let ranges = describe_chunks(n);
    let mut rest = params;
    let mut out: Vec<(u16, u16, Vec<T>)> = Vec::new();
    let mut taken: usize = 0;
    let mut c: usize = 0;
    proof {
        assert(n > 0 ==> (n + 63) / 64 >= 1) by (nonlinear_arith);
        assert(ranges@[0] == chunk_at(n as int, 0));
        assert(0 * PER_CHUNK == 0);
    }
    while c < ranges.len()
        invariant
            n == p.len(),
            ranges@.len() == chunk_count(n as int),
            forall|i: int| 0 <= i < ranges@.len() ==> ranges@[i] == chunk_at(n as int, i),
            c <= ranges@.len(),
            taken <= n,
            c < ranges@.len() ==> taken == ranges@[c as int].start,
            rest@ == p.subrange(taken as int, n as int),
            out@.len() == c,
            forall|i: int|
                0 <= i < c ==> {
                    let (chunk, chunks, part) = #[trigger] out@[i];
                    &&& chunk == describe_parts(p)[i].0
                    &&& chunks == describe_parts(p)[i].1
                    &&& part@ == describe_parts(p)[i].2
                },
        decreases ranges@.len() - c,
    {
        let range = ranges[c];
        proof {
            lemma_chunk_bounds(n as int, c as int);
            assert(range == chunk_at(n as int, c as int));
            assert(range.start as int == c * 64);
            assert(range.end as int <= n);
            assert(range.start <= range.end);
            if c + 1 < ranges@.len() {
                lemma_chunk_bounds(n as int, c + 1);
                assert(ranges@[c + 1] == chunk_at(n as int, c + 1));
                assert(range.end as int == (c + 1) * 64);
            }
        }
        let mut part: Vec<T> = Vec::new();
        while taken < range.end
            invariant
                n == p.len(),
                range == chunk_at(n as int, c as int),
                range.start <= taken <= range.end <= n,
                rest@ == p.subrange(taken as int, n as int),
                part@ == p.subrange(range.start as int, taken as int),
            decreases range.end - taken,
        {
            let x = rest.remove(0);
            part.push(x);
            taken = taken + 1;
            proof {
                assert(rest@ =~= p.subrange(taken as int, n as int));
                assert(part@ =~= p.subrange(range.start as int, taken as int));
            }
        }
        out.push((range.chunk, range.chunks, part));
        c = c + 1;
    }
    out
}

} // verus!
