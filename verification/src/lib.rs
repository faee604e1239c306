//! A chunked map primitive over owned vectors.
//!
//! The library applies a pure transformation to every element of an owned
//! vector, preserving index correspondence: element `i` of the input maps to
//! element `i` of the output. Inputs of at most [`THRESHOLD`] elements are
//! handled in a single direct pass; larger inputs are first partitioned into
//! contiguous chunks of at most [`THRESHOLD`] elements, each chunk is mapped
//! on its own, and the per-chunk outputs are reassembled in original order.
//! Splitting, per-chunk mapping and reassembly are exposed on their own so a
//! caller may run the chunks concurrently and still rely on the same
//! contracts.

use vstd::prelude::*;

verus! {

/// Largest input handled in one direct pass, and the largest size of any
/// single chunk when a larger input is partitioned.
pub const THRESHOLD: usize = 1234;

/// Number of chunks a sequence of `n` elements is partitioned into:
/// `ceil(n / THRESHOLD)`.
pub open spec fn chunk_count(n: int) -> int {
    (n + (THRESHOLD - 1)) / (THRESHOLD as int)
}

/// Index just past the last element of chunk `k` in a sequence of `n`
/// elements: chunk `k` covers `[k * THRESHOLD, chunk_end(n, k))`.
pub open spec fn chunk_end(n: int, k: int) -> int {
    if (k + 1) * (THRESHOLD as int) <= n {
        (k + 1) * (THRESHOLD as int)
    } else {
        n
    }
}

/// Chunk `k` of `s`: the contiguous sub-sequence starting at `k * THRESHOLD`.
pub open spec fn chunk_of<T>(s: Seq<T>, k: int) -> Seq<T> {
    s.subrange(k * (THRESHOLD as int), chunk_end(s.len() as int, k))
}

/// Splits `input` into `chunk_count` contiguous chunks in original order.
///
/// Every chunk except possibly the last holds exactly `THRESHOLD` elements,
/// the last holds the (nonempty) remainder, and the chunks concatenated
/// front to back reconstruct the input exactly.
pub fn split_into_chunks<T>(input: Vec<T>) -> (chunks: Vec<Vec<T>>)
    ensures
        chunks@.len() == chunk_count(input@.len() as int),
        forall|k: int| 0 <= k < chunks@.len() ==> (#[trigger] chunks@[k])@ == chunk_of(input@, k),
        input@.len() == 0 ==> chunks@.len() == 0,
        input@.len() > 0 ==> (chunks@.len() - 1) * (THRESHOLD as int) < input@.len()
            <= chunks@.len() * (THRESHOLD as int),
{
    let ghost orig = input@;
    let ghost n = input@.len() as int;
    let ghost t = THRESHOLD as int;
    let mut input = input;
    if input.len() == 0 {
        proof {
            lemma_chunk_count_full(0);
        }
        return Vec::new();
    }
    let ghost total = chunk_count(n);
    proof {
        lemma_chunk_count_bounds(n);
    }

    // Peel whole chunks off the end, cheapest first, exactly down to chunk
    // boundaries; `backward` collects them in reverse order.
    let mut backward: Vec<Vec<T>> = Vec::new();
    while input.len() > THRESHOLD
        invariant
            n == orig.len(),
            n > 0,
            total == chunk_count(n),
            t == THRESHOLD as int,
            (total - 1) * t < n <= total * t,
            1 <= total - backward@.len() <= total,
            input@ == orig.subrange(0, chunk_end(n, total - backward@.len() - 1)),
            input@.len() > 0,
            forall|j: int|
                0 <= j < backward@.len() ==> (#[trigger] backward@[j])@ == chunk_of(
                    orig,
                    total - 1 - j,
                ),
        decreases input@.len(),
    {
        let ghost q = total - backward@.len();
        let ghost e = chunk_end(n, q - 1);
        proof {
            // Only the first chunk may end at or before THRESHOLD, so more
            // than THRESHOLD remaining elements mean at least two chunks.
            assert(q >= 2);
            assert((q - 1) * t < n) by (nonlinear_arith)
                requires
                    q <= total,
                    (total - 1) * t < n,
                    t > 0,
            ;
            assert(q <= total - 1 ==> q * t <= (total - 1) * t) by (nonlinear_arith)
                requires
                    t > 0,
            ;
            assert(e == (q - 1) * t + (if e == q * t {
                t
            } else {
                n - (q - 1) * t
            }));
        }
        let len = input.len();
        let mut r = len % THRESHOLD;
        if r == 0 {
            r = THRESHOLD;
        }
        proof {
            let last_len = e - (q - 1) * t;
            assert(0 < last_len <= t);
            vstd::arithmetic::div_mod::lemma_mod_multiples_vanish(q - 1, last_len, t);
            assert(t * (q - 1) + last_len == e) by (nonlinear_arith)
                requires
                    e == (q - 1) * t + last_len,
            ;
            if last_len < t {
                vstd::arithmetic::div_mod::lemma_small_mod(last_len as nat, t as nat);
            } else {
                vstd::arithmetic::div_mod::lemma_mod_self_0(t);
            }
            assert(r == last_len);
        }
        let cut = len - r;
        let tail = input.split_off(cut);
        proof {
            assert(tail@ =~= chunk_of(orig, q - 1));
            assert(input@ =~= orig.subrange(0, (q - 1) * t));
            assert(chunk_end(n, q - 2) == (q - 1) * t);
        }
        backward.push(tail);
    }
    proof {
        // At most THRESHOLD elements remain, so only the first chunk is left.
        let q = total - backward@.len();
        if q >= 2 {
            assert(input@.len() == chunk_end(n, q - 1));
            assert((q - 1) * t >= t) by (nonlinear_arith)
                requires
                    q >= 2,
                    t > 0,
            ;
        }
        assert(q == 1);
        assert(input@ =~= chunk_of(orig, 0));
    }
    // The remaining first chunk still owns the whole input buffer; return the
    // spare capacity before handing the chunk out.
    shrink_vec(&mut input);
    backward.push(input);

    let mut chunks: Vec<Vec<T>> = Vec::with_capacity(backward.len());
    while backward.len() > 0
        invariant
            backward@.len() + chunks@.len() == total,
            forall|j: int|
                0 <= j < backward@.len() ==> (#[trigger] backward@[j])@ == chunk_of(
                    orig,
                    total - 1 - j,
                ),
            forall|k: int| 0 <= k < chunks@.len() ==> (#[trigger] chunks@[k])@ == chunk_of(orig, k),
        decreases backward@.len(),
    {
        chunks.push(backward.pop().unwrap());
    }
    chunks
}

/// Relies on Vec::shrink_to_fit: it keeps the length and the contents and
/// only drops spare capacity.
#[verifier::external_body]
fn shrink_vec<T>(v: &mut Vec<T>)
    ensures
        final(v)@ == old(v)@,
{
    v.shrink_to_fit()
}

/// The concatenation, front to back, of the views of the vectors in `chunks`.
pub open spec fn flattened<R>(chunks: Seq<Vec<R>>) -> Seq<R>
    decreases chunks.len(),
{
    if chunks.len() == 0 {
        Seq::empty()
    } else {
        flattened(chunks.drop_last()) + chunks.last()@
    }
}

/// Concatenates the given vectors, front to back, into one vector.
pub fn flatten_chunks<R>(chunks: Vec<Vec<R>>) -> (out: Vec<R>)
    ensures
        out@ == flattened(chunks@),
{
    let ghost orig = chunks@;
    let mut chunks = chunks;
    let mut backward: Vec<Vec<R>> = Vec::new();
    while chunks.len() > 0
        invariant
            chunks@.len() + backward@.len() == orig.len(),
            chunks@ == orig.subrange(0, chunks@.len() as int),
            forall|j: int|
                0 <= j < backward@.len() ==> #[trigger] backward@[j] == orig[orig.len() - 1 - j],
        decreases chunks@.len(),
    {
        backward.push(chunks.pop().unwrap());
    }
    let mut out: Vec<R> = Vec::new();
    while backward.len() > 0
        invariant
            backward@.len() <= orig.len(),
            forall|j: int|
                0 <= j < backward@.len() ==> #[trigger] backward@[j] == orig[orig.len() - 1 - j],
            out@ == flattened(orig.subrange(0, orig.len() - backward@.len())),
        decreases backward@.len(),
    {
        let ghost p = orig.len() - backward@.len();
        let mut c = backward.pop().unwrap();
        out.append(&mut c);
        proof {
            let pre1 = orig.subrange(0, p + 1);
            assert(pre1.drop_last() =~= orig.subrange(0, p));
            assert(pre1.last() == orig[p]);
        }
    }
    proof {
        assert(orig.subrange(0, orig.len() as int) =~= orig);
    }
    out
}

/// A sequence of exactly `m` full chunks has `m` chunks.
proof fn lemma_chunk_count_full(m: int)
    requires
        m >= 0,
    ensures
        chunk_count(m * (THRESHOLD as int)) == m,
{
    let t = THRESHOLD as int;
    assert(m * t + (t - 1) == t * m + (t - 1)) by (nonlinear_arith);
    vstd::arithmetic::div_mod::lemma_div_multiples_vanish_fancy(m, t - 1, t);
}

/// A nonempty sequence has at least one chunk, all chunks fit inside the
/// sequence, and the last chunk is nonempty.
proof fn lemma_chunk_count_bounds(n: int)
    requires
        n > 0,
    ensures
        chunk_count(n) >= 1,
        (chunk_count(n) - 1) * (THRESHOLD as int) < n,
        n <= chunk_count(n) * (THRESHOLD as int),
{
    let t = THRESHOLD as int;
    let cc = chunk_count(n);
    vstd::arithmetic::div_mod::lemma_fundamental_div_mod(n + t - 1, t);
    vstd::arithmetic::div_mod::lemma_mod_bound(n + t - 1, t);
    let r = (n + t - 1) % t;
    assert(n + t - 1 == t * cc + r);
    assert((cc - 1) * t == t * cc - t) by (nonlinear_arith);
    assert(cc * t == t * cc) by (nonlinear_arith);
    assert(cc >= 1) by (nonlinear_arith)
        requires
            cc * t >= n,
            n > 0,
            t > 0,
    ;
}

/// Chunking partitions the input: the chunks of `s`, concatenated front to
/// back in original order, reconstruct `s` exactly. Together with the
/// contracts of [`split_into_chunks`] and [`flatten_chunks`], splitting a
/// vector and flattening the pieces again gives back the original contents.
pub proof fn lemma_chunks_reconstruct<T>(s: Seq<T>, chunks: Seq<Vec<T>>)
    requires
        chunks.len() == chunk_count(s.len() as int),
        forall|k: int| 0 <= k < chunks.len() ==> (#[trigger] chunks[k])@ == chunk_of(s, k),
    ensures
        flattened(chunks) == s,
    decreases chunks.len(),
{
    let t = THRESHOLD as int;
    let n = s.len() as int;
    if chunks.len() == 0 {
        if n > 0 {
            lemma_chunk_count_bounds(n);
        }
        assert(flattened(chunks) =~= s);
    } else {
        let cc = chunks.len() as int;
        if n == 0 {
            lemma_chunk_count_full(0);
        }
        lemma_chunk_count_bounds(n);
        let n1 = (cc - 1) * t;
        let s1 = s.subrange(0, n1);
        let front = chunks.drop_last();
        lemma_chunk_count_full(cc - 1);
        assert forall|k: int| 0 <= k < front.len() implies (#[trigger] front[k])@ == chunk_of(
            s1,
            k,
        ) by {
            assert(front[k] == chunks[k]);
            assert((k + 1) * t <= (cc - 1) * t) by (nonlinear_arith)
                requires
                    k + 1 <= cc - 1,
                    t > 0,
            ;
            assert(chunk_of(s1, k) =~= chunk_of(s, k));
        }
        lemma_chunks_reconstruct(s1, front);
        assert(chunks.last()@ == chunk_of(s, cc - 1));
        assert(chunk_of(s, cc - 1) =~= s.subrange(n1, n));
        assert(flattened(chunks) == flattened(front) + chunks.last()@);
        assert(s1 + s.subrange(n1, n) =~= s);
    }
}

/// Path equivalence: the mapper's contract pins the output. When the
/// transformation admits at most one result for each element, any two
/// outputs that satisfy the contract of [`split_work`] for the same input
/// are equal element for element, whichever pass produced them.
pub proof fn lemma_path_equivalence<R, T, F: Fn(T) -> R>(
    work: F,
    input: Seq<T>,
    out_a: Seq<R>,
    out_b: Seq<R>,
    p: spec_fn(T) -> R,
)
    requires
        forall|x: T, y: R| #[trigger] call_ensures(work, (x,), y) ==> y == p(x),
        out_a.len() == input.len(),
        out_b.len() == input.len(),
        forall|i: int|
            0 <= i < input.len() ==> call_ensures(work, (input[i],), #[trigger] out_a[i]),
        forall|i: int|
            0 <= i < input.len() ==> call_ensures(work, (input[i],), #[trigger] out_b[i]),
    ensures
        out_a == out_b,
        out_a == input.map_values(p),
{
    assert(out_a =~= out_b);
    assert(out_a =~= input.map_values(p));
}

/// Applies `work` to every element of `input`, preserving index
/// correspondence.
///
/// The output has the same length as the input, and each output element is a
/// result `work` admits for the input element at the same index. Inputs of at
/// most [`THRESHOLD`] elements are transformed in one direct pass; larger
/// inputs go through [`split_into_chunks`] and the chunks are transformed one
/// by one, so the result is the same as a caller would get by mapping the
/// chunks concurrently and reassembling them in order.
pub fn split_work<R, T, F>(input: Vec<T>, work: F) -> (out: Vec<R>) where
    T: Send,
    R: Send,
    F: Fn(T) -> R + Send + Copy,

    requires
        forall|i: int| 0 <= i < input@.len() ==> call_requires(work, (input@[i],)),
    ensures
        out@.len() == input@.len(),
        forall|i: int|
            0 <= i < input@.len() ==> call_ensures(work, (input@[i],), #[trigger] out@[i]),
{
    if input.len() <= THRESHOLD {
        return handle_vector(input, work);
    }

    let ghost orig = input@;
    let out_len = input.len();
    let chunks = split_into_chunks(input);
    let ghost total = chunks@.len() as int;

    let mut chunks = chunks;
    let mut backward: Vec<Vec<T>> = Vec::new();
    while chunks.len() > 0
        invariant
            chunks@.len() + backward@.len() == total,
            forall|k: int| 0 <= k < chunks@.len() ==> (#[trigger] chunks@[k])@ == chunk_of(orig, k),
            forall|j: int|
                0 <= j < backward@.len() ==> (#[trigger] backward@[j])@ == chunk_of(
                    orig,
                    total - 1 - j,
                ),
        decreases chunks@.len(),
    {
        backward.push(chunks.pop().unwrap());
    }

    let mut out: Vec<R> = Vec::with_capacity(out_len);
    while backward.len() > 0
        invariant
            forall|i: int| 0 <= i < orig.len() ==> call_requires(work, (orig[i],)),
            backward@.len() <= total,
            total > 0,
            (total - 1) * (THRESHOLD as int) < orig.len() <= total * (THRESHOLD as int),
            forall|j: int|
                0 <= j < backward@.len() ==> (#[trigger] backward@[j])@ == chunk_of(
                    orig,
                    total - 1 - j,
                ),
            out@.len() == if backward@.len() == 0 {
                orig.len() as int
            } else {
                (total - backward@.len()) * (THRESHOLD as int)
            },
            forall|i: int| 0 <= i < out@.len() ==> call_ensures(work, (orig[i],), #[trigger] out@[i]),
        decreases backward@.len(),
    {
        let ghost k = total - backward@.len();
        let c = backward.pop().unwrap();
        proof {
            assert(c@ == chunk_of(orig, k));
            assert forall|j: int| 0 <= j < c@.len() implies call_requires(work, (c@[j],)) by {
                assert(c@[j] == orig[k * (THRESHOLD as int) + j]);
            }
        }
        let mut mapped = handle_vector(c, work);
        let ghost out_before = out@;
        let ghost mapped_view = mapped@;
        out.append(&mut mapped);
        proof {
            let t = THRESHOLD as int;
            assert(out@ == out_before + mapped_view);
            assert(out_before.len() == k * t);
            assert(mapped_view.len() == chunk_end(orig.len() as int, k) - k * t);
            assert(k * t < chunk_end(orig.len() as int, k)) by {
                assert((total - 1 - k) * t >= 0) by (nonlinear_arith)
                    requires
                        total - 1 - k >= 0,
                        t > 0,
                ;
            }
            assert forall|i: int| 0 <= i < out@.len() implies call_ensures(
                work,
                (orig[i],),
                #[trigger] out@[i],
            ) by {
                if i >= k * t {
                    assert(orig[i] == c@[i - k * t]);
                    assert(out@[i] == mapped_view[i - k * t]);
                }
            }
        }
    }
    out
}

/// Applies `handle` to every element of `vector` in order.
///
/// The output has the same length as the input, and each output element is a
/// result `handle` admits for the input element at the same index.
pub fn handle_vector<R, T, F>(vector: Vec<T>, handle: F) -> (out: Vec<R>) where
    F: Fn(T) -> R,

    requires
        forall|i: int| 0 <= i < vector@.len() ==> call_requires(handle, (vector@[i],)),
    ensures
        out@.len() == vector@.len(),
        forall|i: int|
            0 <= i < vector@.len() ==> call_ensures(handle, (vector@[i],), #[trigger] out@[i]),
{
    let ghost orig = vector@;
    let mut vector = vector;
    let mut backward: Vec<R> = Vec::new();
    while vector.len() > 0
        invariant
            forall|i: int| 0 <= i < orig.len() ==> call_requires(handle, (orig[i],)),
            vector@.len() + backward@.len() == orig.len(),
            vector@ == orig.subrange(0, vector@.len() as int),
            forall|j: int|
                0 <= j < backward@.len() ==> call_ensures(
                    handle,
                    (orig[orig.len() - 1 - j],),
                    #[trigger] backward@[j],
                ),
        decreases vector@.len(),
    {
        let x = vector.pop().unwrap();
        backward.push(handle(x));
    }
    let mut out: Vec<R> = Vec::new();
    while backward.len() > 0
        invariant
            out@.len() + backward@.len() == orig.len(),
            forall|j: int|
                0 <= j < backward@.len() ==> call_ensures(
                    handle,
                    (orig[orig.len() - 1 - j],),
                    #[trigger] backward@[j],
                ),
            forall|i: int|
                0 <= i < out@.len() ==> call_ensures(handle, (orig[i],), #[trigger] out@[i]),
        decreases backward@.len(),
    {
        let y = backward.pop().unwrap();
        out.push(y);
    }
    out
}

} // verus!
