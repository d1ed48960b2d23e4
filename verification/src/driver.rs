use vstd::prelude::*;

verus! {

/// The depth with which the rays of an image are rendered.
pub const MAX_DEPTH: usize = 10;

/// The number of chunks that `total` pixels make, `size` pixels to a chunk.
pub open spec fn chunk_count(total: nat, size: nat) -> nat
    recommends
        size > 0,
{
    ((total + size - 1) / (size as int)) as nat
}

/// Where the chunk `k` begins.
pub open spec fn chunk_start(size: nat, k: nat) -> nat {
    k * size
}

/// Where the chunk `k` ends: one chunk's size after its beginning, or at the
/// last pixel if that comes first.
pub open spec fn chunk_end(total: nat, size: nat, k: nat) -> nat {
    if (k + 1) * size <= total {
        (k + 1) * size
    } else {
        total
    }
}

/// The number of processors that the program may use.
///
/// Calls `num_cpus::get`. Nothing is claimed of the number: it depends on the
/// machine and on the limits that the process runs under.
#[verifier::external_body]
fn processors() -> usize {
    num_cpus::get()
}

/// The size of a chunk on a machine with this number of processors: that
/// number, or 1 where it is 0.
pub fn chunk_size_for(processors: usize) -> (size: usize)
    ensures
        size == if processors == 0 {
            1
        } else {
            processors
        },
{
    if processors == 0 {
        1
    } else {
        processors
    }
}

/// The size of a chunk on this machine.
pub fn chunk_size() -> (size: usize)
    ensures
        size >= 1,
{
    chunk_size_for(processors())
}

/// Cuts the pixels `0..total` into chunks of `size` pixels, the last one
/// shorter where `size` does not divide `total`. Each chunk is given by its
/// first pixel and the pixel after its last.
pub fn chunks(total: usize, size: usize) -> (parts: Vec<(usize, usize)>)
    requires
        size > 0,
    ensures
        parts.len() == chunk_count(total as nat, size as nat),
        forall|k: int|
            0 <= k < parts.len() ==> {
                &&& (#[trigger] parts[k]).0 == chunk_start(size as nat, k as nat)
                &&& parts[k].1 == chunk_end(total as nat, size as nat, k as nat)
            },
{
    let mut parts: Vec<(usize, usize)> = Vec::new();
    let mut start: usize = 0;
    proof {
        assert(0 * size == 0 && (0 - 1) * size < 0) by (nonlinear_arith)
            requires
                size > 0,
        ;
    }
    while start < total
        invariant
            size > 0,
            start <= total,
            start < total ==> start == parts.len() * size,
            start == total ==> (parts.len() - 1) * size < total <= parts.len() * size,
            forall|k: int|
                0 <= k < parts.len() ==> {
                    &&& (#[trigger] parts[k]).0 == chunk_start(size as nat, k as nat)
                    &&& parts[k].1 == chunk_end(total as nat, size as nat, k as nat)
                },
        decreases total - start,
    {
        let end = if total - start <= size {
            total
        } else {
            start + size
        };
        proof {
            let k = parts.len() as int;
            assert((k + 1) * size == k * size + size) by (nonlinear_arith);
        }
        parts.push((start, end));
        start = end;
    }
    proof {
        let k = parts.len() as int;
        assert((total + size - 1) / (size as int) == k) by (nonlinear_arith)
            requires
                size > 0,
                (k - 1) * size < total <= k * size,
        ;
    }
    parts
}

/// Every pixel lies in exactly one chunk: the one whose number is the pixel's
/// index divided by the chunk size.
pub proof fn lemma_chunks_partition(total: nat, size: nat, pixel: nat, k: nat)
    requires
        size > 0,
        pixel < total,
    ensures
        pixel / size < chunk_count(total, size),
        chunk_start(size, k) <= pixel < chunk_end(total, size, k) <==> k == pixel / size,
{
    let home = pixel / size;
    assert(home * size <= pixel < (home + 1) * size) by (nonlinear_arith)
        requires
            size > 0,
            home == pixel / size,
    ;
    assert(home < (total + size - 1) / (size as int)) by (nonlinear_arith)
        requires
            size > 0,
            home * size <= pixel,
            pixel < total,
    ;
    if k < home {
        assert((k + 1) * size <= home * size) by (nonlinear_arith)
            requires
                k < home,
                size > 0,
        ;
    }
    if k > home {
        assert(k * size >= (home + 1) * size) by (nonlinear_arith)
            requires
                k > home,
                size > 0,
        ;
    }
}

/// A chunk is never empty and never longer than the chunk size, and each
/// begins where the one before it ends; the first begins at the first pixel
/// and the last ends after the last.
pub proof fn lemma_chunks_are_contiguous(total: nat, size: nat, k: nat)
    requires
        size > 0,
        k < chunk_count(total, size),
    ensures
        chunk_start(size, k) < chunk_end(total, size, k) <= total,
        chunk_end(total, size, k) - chunk_start(size, k) <= size,
        chunk_start(size, 0) == 0,
        k + 1 < chunk_count(total, size) ==> chunk_end(total, size, k) == chunk_start(size, k + 1),
        k + 1 == chunk_count(total, size) ==> chunk_end(total, size, k) == total,
{
    let count = (total + size - 1) / (size as int);
    assert(k * size < total) by (nonlinear_arith)
        requires
            size > 0,
            k < count,
            count == (total + size - 1) / (size as int),
    ;
    assert((k + 1) * size == k * size + size) by (nonlinear_arith);
    if k + 1 < count {
        assert((k + 1) * size < total) by (nonlinear_arith)
            requires
                size > 0,
                k + 1 < count,
                count == (total + size - 1) / (size as int),
        ;
    }
    if k + 1 == count {
        assert((k + 1) * size >= total) by (nonlinear_arith)
            requires
                size > 0,
                k + 1 == count,
                count == (total + size - 1) / (size as int),
        ;
    }
}

} // verus!
