//! Matrices of vectors, stored row by row.
//!
//! Texts are embedded in another order than they come in, shorter ones first, or
//! in shards and batches that run side by side. This module computes the orders
//! and puts the rows back where they belong. A component is carried as the 32
//! bits of its IEEE 754 encoding.

use vstd::arithmetic::div_mod::*;
use vstd::prelude::*;
use vstd::utf8::*;

use crate::order::{key_values, lemma_stable_order, no_later, position_values, sort_positions, stable_order};
use crate::text::views;

verus! {

/// The lengths of some texts in bytes.
pub open spec fn byte_lengths(texts: Seq<Seq<char>>) -> Seq<int> {
    texts.map_values(|t: Seq<char>| encode_utf8(t).len() as int)
}

/// The order in which texts are embedded: shorter ones first, so that the texts
/// of one batch are of similar length.
pub open spec fn text_order(texts: Seq<Seq<char>>) -> Seq<int> {
    stable_order(byte_lengths(texts))
}

/// The texts in the order in which they are embedded.
pub open spec fn sorted_texts(texts: Seq<Seq<char>>) -> Seq<Seq<char>> {
    text_order(texts).map_values(|i: int| texts[i])
}

/// The vectors, put back into the order of the texts: row `t` is the vector that
/// came at the place where text `t` was embedded.
pub open spec fn scattered(order: Seq<int>, bits: Seq<u32>, dim: nat) -> Seq<u32> {
    Seq::new(
        order.len() * dim,
        |i: int| bits[order.index_of(i / dim as int) * dim + i % dim as int],
    )
}

/// A sequence holds each of its positions once.
pub open spec fn is_permutation(order: Seq<int>) -> bool {
    &&& order.no_duplicates()
    &&& forall|i: int| 0 <= i < order.len() ==> 0 <= #[trigger] order[i] < order.len()
    &&& forall|p: int| 0 <= p < order.len() ==> #[trigger] order.contains(p)
}

/// The order of texts holds each position once.
pub proof fn lemma_text_order(texts: Seq<Seq<char>>)
    ensures
        text_order(texts).len() == texts.len(),
        is_permutation(text_order(texts)),
{
    lemma_stable_order(byte_lengths(texts));
}

/// Where row `t` and component `c` stand in a run of rows.
pub proof fn lemma_row_index(t: int, c: int, dim: int)
    requires
        0 <= c < dim,
        0 <= t,
    ensures
        (t * dim + c) / dim == t,
        (t * dim + c) % dim == c,
{
    lemma_fundamental_div_mod_converse(t * dim + c, dim, t, c);
}

/// A row that stands in a run of rows ends in it.
pub proof fn lemma_row_fits(t: int, n: int, dim: int)
    requires
        0 <= t < n,
        0 <= dim,
    ensures
        0 <= t * dim,
        t * dim + dim <= n * dim,
{
    assert(0 <= t * dim) by (nonlinear_arith)
        requires
            0 <= t,
            0 <= dim,
    ;
    assert(t * dim + dim <= n * dim) by (nonlinear_arith)
        requires
            t + 1 <= n,
            0 <= dim,
    ;
}

/// The positions of some texts in the order in which they are embedded.
pub fn embedding_order(texts: &Vec<String>) -> (r: Vec<usize>)
    ensures
        position_values(r@) == text_order(views(texts@)),
{
    let ghost all = views(texts@);
    let mut keys: Vec<i128> = Vec::new();
    let mut i: usize = 0;
    while i < texts.len()
        invariant
            i <= texts@.len(),
            all == views(texts@),
            keys@.len() == i,
            forall|k: int| 0 <= k < i ==> #[trigger] keys@[k] == encode_utf8(all[k]).len(),
        decreases texts@.len() - i,
    {
        keys.push(texts[i].as_str().as_bytes().len() as i128);
        i = i + 1;
    }
    assert(key_values(keys@) =~= byte_lengths(all));
    sort_positions(&keys)
}

/// For every position, the place at which it stands.
fn invert(order: &Vec<usize>) -> (r: Vec<usize>)
    requires
        is_permutation(position_values(order@)),
    ensures
        r@.len() == order@.len(),
        forall|t: int|
            0 <= t < order@.len() ==> #[trigger] r@[t] == position_values(order@).index_of(t),
{
    let n: usize = order.len();
    let ghost o = position_values(order@);
    let mut inv: Vec<usize> = Vec::new();
    let mut i: usize = 0;
    while i < n
        invariant
            i <= n,
            inv@.len() == i,
        decreases n - i,
    {
        inv.push(0);
        i = i + 1;
    }
    i = 0;
    while i < n
        invariant
            i <= n,
            n == order@.len(),
            inv@.len() == n,
            o == position_values(order@),
            is_permutation(o),
            o.len() == n,
            forall|k: int| 0 <= k < i ==> inv@[#[trigger] o[k]] == k,
        decreases n - i,
    {
        let p: usize = order[i];
        assert(o[i as int] == p);
        inv.set(p, i);
        i = i + 1;
    }
    proof {
        assert forall|t: int| 0 <= t < n implies #[trigger] inv@[t] == o.index_of(t) by {
            assert(o.contains(t));
            let k = o.index_of(t);
            assert(inv@[o[k]] == k);
        }
    }
    inv
}

/// Puts rows back into the order that they were taken out of: row `i` of `bits`
/// belongs at position `order[i]`.
pub fn restore_rows(order: &Vec<usize>, bits: &[u32], dim: usize) -> (r: Vec<u32>)
    requires
        is_permutation(position_values(order@)),
        bits@.len() >= order@.len() * dim,
    ensures
        r@ == scattered(position_values(order@), bits@, dim as nat),
        r@.len() == order@.len() * dim,
{
    let inv = invert(order);
    let n: usize = inv.len();
    let ghost o = position_values(order@);
    proof {
        assert(bits.len() == bits@.len());
    }
    let mut out: Vec<u32> = Vec::new();
    let mut t: usize = 0;
    assert(0 * dim == 0) by (nonlinear_arith);
    while t < n
        invariant
            t <= n,
            n == inv@.len(),
            n == o.len(),
            is_permutation(o),
            forall|k: int| 0 <= k < n ==> #[trigger] inv@[k] == o.index_of(k),
            bits@.len() >= n * dim,
            bits@.len() <= usize::MAX,
            out@.len() == t * dim,
            forall|i: int|
                0 <= i < out@.len() ==> #[trigger] out@[i] == bits@[o.index_of(i / dim as int) * dim
                    + i % dim as int],
        decreases n - t,
    {
        let row: usize = inv[t];
        proof {
            assert(o.contains(t as int));
            lemma_row_fits(row as int, n as int, dim as int);
        }
        let base: usize = row * dim;
        let mut c: usize = 0;
        while c < dim
            invariant
                c <= dim,
                t < n,
                row == o.index_of(t as int),
                base == row * dim,
                base + dim <= bits@.len(),
                bits@.len() <= usize::MAX,
                out@.len() == t * dim + c,
                forall|i: int|
                    0 <= i < out@.len() ==> #[trigger] out@[i] == bits@[o.index_of(i / dim as int)
                        * dim + i % dim as int],
            decreases dim - c,
        {
            proof {
                lemma_row_index(t as int, c as int, dim as int);
            }
            out.push(bits[base + c]);
            c = c + 1;
        }
        proof {
            assert((t + 1) * dim == t * dim + dim) by (nonlinear_arith);
        }
        t = t + 1;
    }
    assert(out@ =~= scattered(o, bits@, dim as nat));
    out
}

/// The vector of a text reaches the row of that text: where the embedder gives
/// `vector(t)` for a text `t`, whatever else stands beside it in a batch, row `t`
/// of the group holds the vector of text `t`.
pub proof fn law_rows_follow_texts(
    texts: Seq<Seq<char>>,
    bits: Seq<u32>,
    dim: nat,
    vector: spec_fn(Seq<char>) -> Seq<u32>,
    t: int,
)
    requires
        0 <= t < texts.len(),
        forall|i: int|
            #![trigger sorted_texts(texts)[i]]
            0 <= i < texts.len() ==> bits.subrange(i * dim, i * dim + dim) == vector(
                sorted_texts(texts)[i],
            ),
        bits.len() >= texts.len() * dim,
    ensures
        scattered(text_order(texts), bits, dim).len() == texts.len() * dim,
        scattered(text_order(texts), bits, dim).subrange(t * dim, t * dim + dim) == vector(
            texts[t],
        ),
{
    let o = text_order(texts);
    let rows = scattered(o, bits, dim);
    lemma_text_order(texts);
    assert(o.contains(t));
    let k = o.index_of(t);
    assert(sorted_texts(texts)[k] == texts[t]);
    lemma_row_fits(t, texts.len() as int, dim as int);
    lemma_row_fits(k, texts.len() as int, dim as int);
    assert forall|c: int| 0 <= c < dim implies #[trigger] rows.subrange(
        t * dim,
        t * dim + dim,
    )[c] == bits.subrange(k * dim, k * dim + dim)[c] by {
        lemma_row_index(t, c, dim as int);
        assert(rows[t * dim + c] == bits[k * dim + c]);
    }
    assert(rows.subrange(t * dim, t * dim + dim) =~= bits.subrange(k * dim, k * dim + dim));
}

/// How many shards `n` texts are split into for a number of workers.
pub open spec fn shard_count(workers: nat, n: nat) -> nat {
    let w = if workers < n {
        workers
    } else {
        n
    };
    if w < 1 {
        1
    } else {
        w
    }
}

/// Shard `w` of `count`: every `count`-th text, from the one at `w` on.
pub open spec fn is_shard(
    shard: Seq<Seq<char>>,
    texts: Seq<Seq<char>>,
    count: int,
    w: int,
) -> bool {
    &&& texts.len() <= w + shard.len() * count
    &&& forall|k: int|
        0 <= k < shard.len() ==> 0 <= #[trigger] nth_of_shard(w, k, count) < texts.len() && shard[k]
            == texts[nth_of_shard(w, k, count)]
}

/// Which text stands at place `k` of shard `w`.
pub open spec fn nth_of_shard(w: int, k: int, count: int) -> int {
    w + k * count
}

/// Splits texts into shards, one per worker, but no more than there are texts.
/// Going round robin keeps runs of similar length together when the texts are
/// sorted by length.
pub fn shard_texts(texts: &Vec<String>, workers: usize) -> (r: Vec<Vec<String>>)
    ensures
        r@.len() == shard_count(workers as nat, texts@.len()),
        forall|w: int|
            0 <= w < r@.len() ==> is_shard(
                views((#[trigger] r@[w])@),
                views(texts@),
                r@.len() as int,
                w,
            ),
{
    let ghost all = views(texts@);
    let n: usize = texts.len();
    let least: usize = if workers < n {
        workers
    } else {
        n
    };
    let count: usize = if least < 1 {
        1
    } else {
        least
    };
    let mut out: Vec<Vec<String>> = Vec::new();
    let mut w: usize = 0;
    while w < count
        invariant
            w <= count,
            n == texts@.len(),
            all == views(texts@),
            1 <= count,
            count <= n || n == 0,
            out@.len() == w,
            forall|v: int|
                0 <= v < w ==> is_shard(views((#[trigger] out@[v])@), all, count as int, v),
        decreases count - w,
    {
        let mut shard: Vec<String> = Vec::new();
        let mut i: usize = w;
        assert(0 * count == 0) by (nonlinear_arith);
        while i < n
            invariant_except_break
                w < count,
                n == texts@.len(),
                all == views(texts@),
                1 <= count,
                i == w + shard@.len() * count,
                forall|k: int|
                    0 <= k < shard@.len() ==> 0 <= #[trigger] nth_of_shard(
                        w as int,
                        k,
                        count as int,
                    ) < n && shard@[k]@ == all[nth_of_shard(w as int, k, count as int)],
            ensures
                n <= w + shard@.len() * count,
                forall|k: int|
                    0 <= k < shard@.len() ==> 0 <= #[trigger] nth_of_shard(
                        w as int,
                        k,
                        count as int,
                    ) < n && shard@[k]@ == all[nth_of_shard(w as int, k, count as int)],
            decreases n - i,
        {
            assert(nth_of_shard(w as int, shard@.len() as int, count as int) == i);
            let ghost before = shard@;
            shard.push(texts[i].clone());
            proof {
                assert((before.len() + 1) * count == before.len() * count + count)
                    by (nonlinear_arith);
                assert forall|k: int| 0 <= k < shard@.len() implies 0 <= #[trigger] nth_of_shard(
                    w as int,
                    k,
                    count as int,
                ) < n && shard@[k]@ == all[nth_of_shard(w as int, k, count as int)] by {
                    if k < before.len() {
                        assert(shard@[k] == before[k]);
                    }
                }
            }
            if n - i <= count {
                break;
            }
            i = i + count;
        }
        out.push(shard);
        w = w + 1;
    }
    out
}

/// Why rows could not be gathered.
#[derive(Debug, Clone, Copy, PartialEq, Eq, Structural)]
pub enum GatherError {
    /// This shard has no result.
    Failed(usize),
    /// A vector of this length, in place of the dimension.
    Dim(usize),
}

/// The vectors that a shard gave; `None` where it failed.
pub open spec fn result_view(r: Option<Vec<Vec<u32>>>) -> Option<Seq<Seq<u32>>> {
    match r {
        Some(v) => Some(v@.map_values(|x: Vec<u32>| x@)),
        None => None,
    }
}

/// The results of some shards.
pub open spec fn result_views(v: Seq<Option<Vec<Vec<u32>>>>) -> Seq<Option<Seq<Seq<u32>>>> {
    v.map_values(|r: Option<Vec<Vec<u32>>>| result_view(r))
}

/// What is wrong with the first `k` vectors of a shard: the first that belongs to
/// a text and has another length than the dimension.
pub open spec fn vectors_error(
    vectors: Seq<Seq<u32>>,
    n: int,
    dim: nat,
    count: int,
    w: int,
    k: int,
) -> Option<GatherError>
    decreases k,
{
    if k <= 0 {
        None
    } else {
        match vectors_error(vectors, n, dim, count, w, k - 1) {
            Some(e) => Some(e),
            None => if nth_of_shard(w, k - 1, count) < n && vectors[k - 1].len() != dim {
                Some(GatherError::Dim(vectors[k - 1].len() as usize))
            } else {
                None
            },
        }
    }
}

/// What is wrong with the first `w` shards.
pub open spec fn gather_error(
    results: Seq<Option<Seq<Seq<u32>>>>,
    n: int,
    dim: nat,
    w: int,
) -> Option<GatherError>
    decreases w,
{
    if w <= 0 {
        None
    } else {
        match gather_error(results, n, dim, w - 1) {
            Some(e) => Some(e),
            None => match results[w - 1] {
                None => Some(GatherError::Failed((w - 1) as usize)),
                Some(v) => vectors_error(v, n, dim, results.len() as int, w - 1, v.len() as int),
            },
        }
    }
}

/// Component `c` of the row of text `i`: that of the vector which its shard gave
/// for it, and zero where the shard gave too few.
pub open spec fn gathered(results: Seq<Option<Seq<Seq<u32>>>>, i: int, c: int) -> u32 {
    let count = results.len() as int;
    match results[i % count] {
        Some(v) => if i / count < v.len() {
            v[i / count][c]
        } else {
            0
        },
        None => 0,
    }
}

/// An error of a shard is the error of all of them.
proof fn lemma_gather_error(
    results: Seq<Option<Seq<Seq<u32>>>>,
    n: int,
    dim: nat,
    w: int,
    all: int,
)
    requires
        0 <= w <= all,
        gather_error(results, n, dim, w) is Some,
    ensures
        gather_error(results, n, dim, all) == gather_error(results, n, dim, w),
    decreases all - w,
{
    if w < all {
        lemma_gather_error(results, n, dim, w + 1, all);
    }
}

proof fn lemma_vectors_error(
    vectors: Seq<Seq<u32>>,
    n: int,
    dim: nat,
    count: int,
    w: int,
    k: int,
    all: int,
)
    requires
        0 <= k <= all,
        vectors_error(vectors, n, dim, count, w, k) is Some,
    ensures
        vectors_error(vectors, n, dim, count, w, all) == vectors_error(
            vectors,
            n,
            dim,
            count,
            w,
            k,
        ),
    decreases all - k,
{
    if k < all {
        lemma_vectors_error(vectors, n, dim, count, w, k + 1, all);
    }
}

/// Behind the texts nothing is wrong with a vector.
proof fn lemma_vectors_beyond(
    vectors: Seq<Seq<u32>>,
    n: int,
    dim: nat,
    count: int,
    w: int,
    k: int,
    all: int,
)
    requires
        0 <= k <= all,
        1 <= count,
        nth_of_shard(w, k, count) >= n,
    ensures
        vectors_error(vectors, n, dim, count, w, all) == vectors_error(
            vectors,
            n,
            dim,
            count,
            w,
            k,
        ),
    decreases all - k,
{
    if k < all {
        lemma_vectors_beyond(vectors, n, dim, count, w, k, all - 1);
        assert((all - 1) * count >= k * count) by (nonlinear_arith)
            requires
                all - 1 >= k,
                count >= 1,
        ;
    }
}

/// Nothing is wrong: every vector of a text has the dimension.
proof fn lemma_no_error(results: Seq<Option<Seq<Seq<u32>>>>, n: int, dim: nat, i: int)
    requires
        gather_error(results, n, dim, results.len() as int) is None,
        0 <= i < n,
        results.len() >= 1,
    ensures
        ({
            let count = results.len() as int;
            results[i % count] matches Some(v) && (i / count < v.len() ==> v[i / count].len()
                == dim)
        }),
{
    let count = results.len() as int;
    let w = i % count;
    let k = i / count;
    lemma_fundamental_div_mod(i, count);
    assert(count * k == k * count) by (nonlinear_arith);
    assert(nth_of_shard(w, k, count) == i);
    if gather_error(results, n, dim, w + 1) is Some {
        lemma_gather_error(results, n, dim, w + 1, count);
    }
    if gather_error(results, n, dim, w) is Some {
        lemma_gather_error(results, n, dim, w, count);
    }
    let v = results[w]->0;
    if k < v.len() {
        if vectors_error(v, n, dim, count, w, k + 1) is Some {
            lemma_vectors_error(v, n, dim, count, w, k + 1, v.len() as int);
        }
        if vectors_error(v, n, dim, count, w, k) is Some {
            lemma_vectors_error(v, n, dim, count, w, k, v.len() as int);
        }
    }
}

/// Checks the vectors of one shard.
fn check_vectors(vectors: &Vec<Vec<u32>>, n: usize, dim: usize, count: usize, w: usize) -> (r: Option<
    GatherError,
>)
    requires
        w < count,
    ensures
        r == vectors_error(
            vectors@.map_values(|x: Vec<u32>| x@),
            n as int,
            dim as nat,
            count as int,
            w as int,
            vectors@.len() as int,
        ),
{
    let ghost all = vectors@.map_values(|x: Vec<u32>| x@);
    let mut k: usize = 0;
    let mut i: usize = w;
    assert(0 * count == 0) by (nonlinear_arith);
    while k < vectors.len()
        invariant
            k <= vectors@.len(),
            w < count,
            all == vectors@.map_values(|x: Vec<u32>| x@),
            i == nth_of_shard(w as int, k as int, count as int),
            vectors_error(all, n as int, dim as nat, count as int, w as int, k as int) is None,
        decreases vectors@.len() - k,
    {
        if i >= n {
            proof {
                lemma_vectors_beyond(
                    all,
                    n as int,
                    dim as nat,
                    count as int,
                    w as int,
                    k as int,
                    vectors@.len() as int,
                );
            }
            return None;
        }
        assert(all[k as int] == vectors@[k as int]@);
        let got: usize = vectors[k].len();
        if got != dim {
            proof {
                lemma_vectors_error(
                    all,
                    n as int,
                    dim as nat,
                    count as int,
                    w as int,
                    k + 1,
                    vectors@.len() as int,
                );
            }
            return Some(GatherError::Dim(got));
        }
        assert((k + 1) * count == k * count + count) by (nonlinear_arith);
        if count > usize::MAX - i {
            proof {
                lemma_vectors_beyond(
                    all,
                    n as int,
                    dim as nat,
                    count as int,
                    w as int,
                    k + 1,
                    vectors@.len() as int,
                );
            }
            return None;
        }
        i = i + count;
        k = k + 1;
    }
    None
}

/// Gathers the vectors of the shards into one matrix, in the order of the texts.
/// The first shard with an error decides.
pub fn gather_shards(results: &Vec<Option<Vec<Vec<u32>>>>, n: usize, dim: usize) -> (r: Result<
    Vec<u32>,
    GatherError,
>)
    requires
        results@.len() >= 1,
        n * dim <= usize::MAX,
    ensures
        match gather_error(result_views(results@), n as int, dim as nat, results@.len() as int) {
            Some(e) => r == Err::<Vec<u32>, GatherError>(e),
            None => r matches Ok(v) && v@ == Seq::new(
                (n * dim) as nat,
                |j: int| gathered(result_views(results@), j / dim as int, j % dim as int),
            ),
        },
{
    let ghost all = result_views(results@);
    let count: usize = results.len();
    let mut w: usize = 0;
    while w < count
        invariant
            w <= count,
            count == results@.len(),
            all == result_views(results@),
            gather_error(all, n as int, dim as nat, w as int) is None,
        decreases count - w,
    {
        assert(all[w as int] == result_view(results@[w as int]));
        match &results[w] {
            Some(v) => {
                match check_vectors(v, n, dim, count, w) {
                    Some(e) => {
                        proof {
                            lemma_gather_error(all, n as int, dim as nat, w + 1, count as int);
                        }
                        return Err(e);
                    },
                    None => {},
                }
            },
            None => {
                proof {
                    lemma_gather_error(all, n as int, dim as nat, w + 1, count as int);
                }
                return Err(GatherError::Failed(w));
            },
        }
        w = w + 1;
    }
    let mut out: Vec<u32> = Vec::new();
    let mut i: usize = 0;
    assert(0 * dim == 0) by (nonlinear_arith);
    while i < n
        invariant
            i <= n,
            count == results@.len(),
            count >= 1,
            all == result_views(results@),
            gather_error(all, n as int, dim as nat, count as int) is None,
            out@.len() == i * dim,
            forall|j: int|
                0 <= j < out@.len() ==> #[trigger] out@[j] == gathered(
                    all,
                    j / dim as int,
                    j % dim as int,
                ),
        decreases n - i,
    {
        let s: usize = i % count;
        let k: usize = i / count;
        proof {
            lemma_no_error(all, n as int, dim as nat, i as int);
            assert(all[s as int] == result_view(results@[s as int]));
        }
        let mut c: usize = 0;
        while c < dim
            invariant
                c <= dim,
                i < n,
                count == results@.len(),
                count >= 1,
                s < count,
                s == i % count,
                k == i / count,
                all == result_views(results@),
                all[s as int] == result_view(results@[s as int]),
                all[s as int] matches Some(v) && (k < v.len() ==> v[k as int].len() == dim),
                out@.len() == i * dim + c,
                forall|j: int|
                    0 <= j < out@.len() ==> #[trigger] out@[j] == gathered(
                        all,
                        j / dim as int,
                        j % dim as int,
                    ),
            decreases dim - c,
        {
            proof {
                lemma_row_index(i as int, c as int, dim as int);
            }
            let x: u32 = match &results[s] {
                Some(v) => if k < v.len() {
                    assert(v@.map_values(|x: Vec<u32>| x@)[k as int] == v@[k as int]@);
                    v[k][c]
                } else {
                    0
                },
                None => 0,
            };
            out.push(x);
            c = c + 1;
        }
        proof {
            assert((i + 1) * dim == i * dim + dim) by (nonlinear_arith);
        }
        i = i + 1;
    }
    assert(out@ =~= Seq::new(
        (n * dim) as nat,
        |j: int| gathered(all, j / dim as int, j % dim as int),
    ));
    Ok(out)
}

/// The vector of a text reaches the row of that text through its shard: where
/// every shard gives `vector(t)` for each of its texts, in order, row `i` is the
/// vector of text `i`.
pub proof fn law_gathered_rows_follow_texts(
    texts: Seq<Seq<char>>,
    shards: Seq<Seq<Seq<char>>>,
    results: Seq<Option<Seq<Seq<u32>>>>,
    vector: spec_fn(Seq<char>) -> Seq<u32>,
    i: int,
    c: int,
)
    requires
        shards.len() == results.len() >= 1,
        forall|w: int|
            #![trigger shards[w]]
            0 <= w < shards.len() ==> is_shard(shards[w], texts, shards.len() as int, w)
                && results[w] == Some(shards[w].map_values(vector)),
        0 <= i < texts.len(),
    ensures
        gathered(results, i, c) == vector(texts[i])[c],
{
    let count = shards.len() as int;
    let w = i % count;
    let k = i / count;
    lemma_fundamental_div_mod(i, count);
    assert(count * k == k * count) by (nonlinear_arith);
    assert(is_shard(shards[w], texts, count, w));
    assert(0 <= k) by {
        lemma_div_pos_is_pos(i, count);
    }
    assert(k < shards[w].len()) by (nonlinear_arith)
        requires
            i == w + k * count,
            i < texts.len() <= w + shards[w].len() * count,
            count >= 1,
    ;
    assert(nth_of_shard(w, k, count) == i);
}

/// The runs of at most `size` that `n` items are cut into.
pub open spec fn are_ranges(ranges: Seq<(usize, usize)>, n: int, size: int) -> bool {
    &&& n <= ranges.len() * size
    &&& forall|j: int|
        0 <= j < ranges.len() ==> (#[trigger] ranges[j]).0 == j * size && ranges[j].0 < n
            && ranges[j].1 == (if j * size + size <= n {
            j * size + size
        } else {
            n
        })
}

/// Cuts `n` items into runs of `size`; the last may be shorter.
pub fn batch_ranges(n: usize, size: usize) -> (r: Vec<(usize, usize)>)
    requires
        size >= 1,
    ensures
        are_ranges(r@, n as int, size as int),
{
    let mut out: Vec<(usize, usize)> = Vec::new();
    let mut at: usize = 0;
    assert(0 * size == 0) by (nonlinear_arith);
    while at < n
        invariant
            size >= 1,
            at <= n,
            n <= out@.len() * size || at == out@.len() * size,
            at == n ==> n <= out@.len() * size,
            forall|j: int|
                0 <= j < out@.len() ==> (#[trigger] out@[j]).0 == j * size && out@[j].0 < n
                    && out@[j].1 == (if j * size + size <= n {
                    j * size + size
                } else {
                    n as int
                }),
            at < n ==> at == out@.len() * size,
        decreases n - at,
    {
        proof {
            assert((out@.len() + 1) * size == out@.len() * size + size) by (nonlinear_arith);
        }
        let end: usize = if size <= n - at {
            at + size
        } else {
            n
        };
        out.push((at, end));
        at = end;
    }
    out
}

/// The texts at some places of an order.
pub fn take_texts(texts: &Vec<String>, order: &Vec<usize>, start: usize, end: usize) -> (r: Vec<
    String,
>)
    requires
        start <= end <= order@.len(),
        forall|i: int| 0 <= i < order@.len() ==> #[trigger] order@[i] < texts@.len(),
    ensures
        views(r@) == Seq::new(
            (end - start) as nat,
            |i: int| views(texts@)[order@[start + i] as int],
        ),
{
    let mut out: Vec<String> = Vec::new();
    let mut i: usize = start;
    while i < end
        invariant
            start <= i <= end <= order@.len(),
            forall|k: int| 0 <= k < order@.len() ==> #[trigger] order@[k] < texts@.len(),
            out@.len() == i - start,
            forall|k: int|
                0 <= k < out@.len() ==> (#[trigger] out@[k])@ == texts@[order@[start + k] as int]@,
        decreases end - i,
    {
        out.push(texts[order[i]].clone());
        i = i + 1;
    }
    assert(views(out@) =~= Seq::new(
        (end - start) as nat,
        |i: int| views(texts@)[order@[start + i] as int],
    ));
    out
}

/// Some texts, and empty ones behind them up to a length.
pub open spec fn padded(texts: Seq<Seq<char>>, len: nat) -> Seq<Seq<char>> {
    if texts.len() < len {
        texts + Seq::new((len - texts.len()) as nat, |i: int| Seq::<char>::empty())
    } else {
        texts
    }
}

/// Adds empty texts up to a fixed batch shape.
pub fn pad_texts(texts: Vec<String>, len: usize) -> (r: Vec<String>)
    ensures
        views(r@) == padded(views(texts@), len as nat),
{
    let ghost all = views(texts@);
    let mut out = texts;
    assert(views(out@) =~= padded(all, all.len()));
    while out.len() < len
        invariant
            all.len() <= out@.len(),
            out@.len() <= len || out@.len() == all.len(),
            views(out@) == padded(all, out@.len()),
        decreases len - out@.len(),
    {
        let ghost before = views(out@);
        let none = String::new();
        assert(none@ == Seq::<char>::empty());
        out.push(none);
        proof {
            assert(views(out@) == before.push(Seq::<char>::empty()));
            assert(views(out@) =~= padded(all, out@.len()));
        }
    }
    out
}

/// The batch whose vectors stand in a row at the end: batch `b` starts at row
/// `b * size`, and of two batches that reach a row the later one counts.
pub open spec fn last_batch(results: Seq<Seq<Seq<u32>>>, size: int, row: int, b: int) -> Option<int>
    decreases b,
{
    if b <= 0 {
        None
    } else if (b - 1) * size <= row < (b - 1) * size + results[b - 1].len() {
        Some(b - 1)
    } else {
        last_batch(results, size, row, b - 1)
    }
}

/// Component `c` of a row that the first `b` batches fill.
pub open spec fn placed(results: Seq<Seq<Seq<u32>>>, size: int, row: int, c: int, b: int) -> u32 {
    match last_batch(results, size, row, b) {
        Some(a) => results[a][row - a * size][c],
        None => 0,
    }
}

/// Places the vectors of batches into one matrix; row `b * size + k` is vector
/// `k` of batch `b`. A row that no batch reaches is zero.
pub fn place_batches(results: &Vec<Vec<Vec<u32>>>, size: usize, n: usize, dim: usize) -> (r: Vec<u32>)
    requires
        n * dim <= usize::MAX,
        forall|b: int|
            0 <= b < results@.len() ==> #[trigger] (b * size) + results@[b]@.len() <= n,
        forall|b: int, k: int|
            0 <= b < results@.len() && 0 <= k < results@[b]@.len() ==> (
            #[trigger] results@[b]@[k])@.len() == dim,
    ensures
        r@ == Seq::new(
            (n * dim) as nat,
            |j: int|
                placed(
                    batch_views(results@),
                    size as int,
                    j / dim as int,
                    j % dim as int,
                    results@.len() as int,
                ),
        ),
{
    let ghost all = batch_views(results@);
    let ghost count = results@.len() as int;
    let mut out: Vec<u32> = Vec::new();
    let mut i: usize = 0;
    assert(0 * dim == 0) by (nonlinear_arith);
    while i < n
        invariant
            i <= n,
            all == batch_views(results@),
            count == results@.len(),
            n * dim <= usize::MAX,
            forall|b: int|
                0 <= b < results@.len() ==> #[trigger] (b * size) + results@[b]@.len() <= n,
            forall|b: int, k: int|
                0 <= b < results@.len() && 0 <= k < results@[b]@.len() ==> (
                #[trigger] results@[b]@[k])@.len() == dim,
            out@.len() == i * dim,
            forall|j: int|
                0 <= j < out@.len() ==> #[trigger] out@[j] == placed(
                    all,
                    size as int,
                    j / dim as int,
                    j % dim as int,
                    count,
                ),
        decreases n - i,
    {
        let found: Option<(usize, usize)> = find_batch(results, size, n, i);
        let mut c: usize = 0;
        while c < dim
            invariant
                c <= dim,
                i < n,
                all == batch_views(results@),
                count == results@.len(),
                match found {
                    Some((b, k)) => {
                        &&& last_batch(all, size as int, i as int, count) == Some(b as int)
                        &&& b < results@.len()
                        &&& k == i - b * size
                        &&& k < results@[b as int]@.len()
                        &&& results@[b as int]@[k as int]@.len() == dim
                    },
                    None => last_batch(all, size as int, i as int, count) is None,
                },
                out@.len() == i * dim + c,
                forall|j: int|
                    0 <= j < out@.len() ==> #[trigger] out@[j] == placed(
                        all,
                        size as int,
                        j / dim as int,
                        j % dim as int,
                        count,
                    ),
            decreases dim - c,
        {
            proof {
                lemma_row_index(i as int, c as int, dim as int);
            }
            let x: u32 = match found {
                Some((b, k)) => {
                    proof {
                        assert(all[b as int] == results@[b as int]@.map_values(
                            |x: Vec<u32>| x@,
                        ));
                    }
                    results[b][k][c]
                },
                None => 0,
            };
            out.push(x);
            c = c + 1;
        }
        proof {
            assert((i + 1) * dim == i * dim + dim) by (nonlinear_arith);
        }
        i = i + 1;
    }
    assert(out@ =~= Seq::new(
        (n * dim) as nat,
        |j: int| placed(all, size as int, j / dim as int, j % dim as int, count),
    ));
    out
}

/// The vectors of some batches.
pub open spec fn batch_views(v: Seq<Vec<Vec<u32>>>) -> Seq<Seq<Seq<u32>>> {
    v.map_values(|b: Vec<Vec<u32>>| b@.map_values(|x: Vec<u32>| x@))
}

/// The last batch that reaches a row, and where in it the row stands.
fn find_batch(results: &Vec<Vec<Vec<u32>>>, size: usize, n: usize, row: usize) -> (r: Option<
    (usize, usize),
>)
    requires
        row < n,
        forall|b: int|
            0 <= b < results@.len() ==> #[trigger] (b * size) + results@[b]@.len() <= n,
    ensures
        match r {
            Some((b, k)) => {
                &&& last_batch(
                    batch_views(results@),
                    size as int,
                    row as int,
                    results@.len() as int,
                ) == Some(b as int)
                &&& b < results@.len()
                &&& k == row - b * size
                &&& k < results@[b as int]@.len()
            },
            None => last_batch(
                batch_views(results@),
                size as int,
                row as int,
                results@.len() as int,
            ) is None,
        },
{
    let ghost all = batch_views(results@);
    let mut b: usize = results.len();
    while b > 0
        invariant
            b <= results@.len(),
            row < n,
            all == batch_views(results@),
            forall|b: int|
                0 <= b < results@.len() ==> #[trigger] (b * size) + results@[b]@.len() <= n,
            last_batch(all, size as int, row as int, b as int) == last_batch(
                all,
                size as int,
                row as int,
                results@.len() as int,
            ),
        decreases b,
    {
        let a: usize = b - 1;
        proof {
            assert((a * size) + results@[a as int]@.len() <= n);
            assert(all[a as int].len() == results@[a as int]@.len());
            assert(0 <= a * size) by (nonlinear_arith)
                requires
                    0 <= a,
                    0 <= size,
            ;
        }
        let start: usize = a * size;
        if start <= row && row - start < results[a].len() {
            return Some((a, row - start));
        }
        b = a;
    }
    None
}

/// Texts are embedded in the order of their length in bytes, each exactly once;
/// texts of one length keep their order.
pub proof fn law_texts_go_by_length(texts: Seq<Seq<char>>, a: int, b: int)
    requires
        0 <= a < b < texts.len(),
    ensures
        text_order(texts).len() == texts.len(),
        text_order(texts).no_duplicates(),
        0 <= text_order(texts)[a] < texts.len(),
        sorted_texts(texts).len() == texts.len(),
        sorted_texts(texts)[a] == texts[text_order(texts)[a]],
        encode_utf8(sorted_texts(texts)[a]).len() <= encode_utf8(sorted_texts(texts)[b]).len(),
        encode_utf8(sorted_texts(texts)[a]).len() == encode_utf8(sorted_texts(texts)[b]).len()
            ==> text_order(texts)[a] < text_order(texts)[b],
{
    let keys = byte_lengths(texts);
    lemma_stable_order(keys);
    let order = stable_order(keys);
    assert(no_later(keys, order[a], order[b]));
    assert(0 <= order[a] < texts.len() && 0 <= order[b] < texts.len());
}

/// Rows go back where they were taken from: what came at place `i` of the order
/// stands in the row that the order names there.
pub proof fn law_rows_go_back(order: Seq<int>, bits: Seq<u32>, dim: nat, i: int)
    requires
        is_permutation(order),
        bits.len() >= order.len() * dim,
        0 <= i < order.len(),
    ensures
        scattered(order, bits, dim).len() == order.len() * dim,
        scattered(order, bits, dim).subrange(order[i] * dim, order[i] * dim + dim)
            == bits.subrange(i * dim, i * dim + dim),
{
    let t = order[i];
    let d = dim as int;
    lemma_row_fits(t, order.len() as int, d);
    lemma_row_fits(i, order.len() as int, d);
    assert(order.contains(t));
    let p = order.index_of(t);
    assert(0 <= p < order.len() && order[p] == t);
    assert(p == i);
    let out = scattered(order, bits, dim);
    let row = out.subrange(t * d, t * d + d);
    let want = bits.subrange(i * d, i * d + d);
    assert forall|c: int| 0 <= c < d implies #[trigger] row[c] == want[c] by {
        lemma_row_index(t, c, d);
    }
    assert(row =~= want);
}

/// There are as many shards as workers, but no more than texts, and at least one.
pub proof fn law_shard_count(workers: nat, n: nat)
    ensures
        shard_count(workers, n) >= 1,
        n >= 1 ==> shard_count(workers, n) <= n,
        workers >= 1 ==> shard_count(workers, n) <= workers,
        workers >= 1 && n >= 1 ==> shard_count(workers, n) == workers || shard_count(workers, n)
            == n,
{
}

/// Every text is in one of the shards, and only there: the shards deal the texts
/// out in turn.
pub proof fn law_shards_deal_texts(
    texts: Seq<Seq<char>>,
    shards: Seq<Seq<Seq<char>>>,
    i: int,
    w: int,
    k: int,
)
    requires
        shards.len() >= 1,
        forall|x: int|
            #![trigger shards[x]]
            0 <= x < shards.len() ==> is_shard(shards[x], texts, shards.len() as int, x),
        0 <= i < texts.len(),
        0 <= w < shards.len(),
        0 <= k,
    ensures
        (i / shards.len() as int) < shards[i % shards.len() as int].len(),
        shards[i % shards.len() as int][i / shards.len() as int] == texts[i],
        k < shards[w].len() <==> w + k * shards.len() < texts.len(),
        k < shards[w].len() ==> shards[w][k] == texts[w + k * shards.len()],
{
    let n = shards.len() as int;
    let q = i / n;
    let r = i % n;
    lemma_fundamental_div_mod(i, n);
    lemma_mod_bound(i, n);
    assert(is_shard(shards[r], texts, n, r));
    assert(is_shard(shards[w], texts, n, w));
    assert(0 <= q) by (nonlinear_arith)
        requires
            i == n * q + r,
            0 <= i,
            0 <= r < n,
    ;
    assert(nth_of_shard(r, q, n) == i) by (nonlinear_arith)
        requires
            i == n * q + r,
    ;
    if q >= shards[r].len() {
        let len = shards[r].len() as int;
        assert(len * n <= q * n) by (nonlinear_arith)
            requires
                len <= q,
                n >= 1,
        ;
    }
    assert(k * shards.len() == k * n);
    if k < shards[w].len() {
        assert(nth_of_shard(w, k, n) < texts.len());
    } else {
        let len = shards[w].len() as int;
        assert(len * n <= k * n) by (nonlinear_arith)
            requires
                len <= k,
                n >= 1,
        ;
    }
}

/// Shard `w` is in order: it has a result, and each of its vectors that belongs to
/// a text has the dimension.
pub open spec fn shard_is_sound(
    results: Seq<Option<Seq<Seq<u32>>>>,
    n: int,
    dim: nat,
    w: int,
) -> bool {
    results[w] is Some && forall|k: int|
        0 <= k < results[w]->0.len() && w + k * results.len() < n ==> (
        #[trigger] results[w]->0[k]).len() == dim
}

/// Gathering succeeds exactly if every shard is in order. Otherwise the first one
/// that is not decides: it failed, or it gave a vector of another length.
pub proof fn law_gather_succeeds(results: Seq<Option<Seq<Seq<u32>>>>, n: int, dim: nat, w: int)
    requires
        0 <= w <= results.len(),
        results.len() <= usize::MAX,
    ensures
        gather_error(results, n, dim, w) is None <==> forall|x: int|
            0 <= x < w ==> #[trigger] shard_is_sound(results, n, dim, x),
        w < results.len() && (forall|x: int|
            0 <= x < w ==> #[trigger] shard_is_sound(results, n, dim, x)) && results[w] is None
            ==> gather_error(results, n, dim, results.len() as int) == Some(
            GatherError::Failed(w as usize),
        ),
        gather_error(results, n, dim, w) matches Some(GatherError::Failed(x)) ==> x < w
            && results[x as int] is None,
        gather_error(results, n, dim, w) matches Some(GatherError::Dim(d)) ==> exists|x: int, k: int|
            0 <= x < w && results[x] is Some && 0 <= k < results[x]->0.len()
                && #[trigger] results[x]->0[k].len() as usize == d && results[x]->0[k].len() != dim,
    decreases w,
{
    if w > 0 {
        law_gather_succeeds(results, n, dim, w - 1);
        if results[w - 1] is Some {
            let v = results[w - 1]->0;
            lemma_vectors_sound(v, n, dim, results.len() as int, w - 1, v.len() as int);
            assert(results[w - 1] == Some(v));
            if vectors_error(v, n, dim, results.len() as int, w - 1, v.len() as int) is None {
                assert(shard_is_sound(results, n, dim, w - 1));
            } else {
                let k = choose|k: int|
                    0 <= k < v.len() && nth_of_shard(w - 1, k, results.len() as int) < n
                        && #[trigger] v[k].len() != dim && vectors_error(
                        v,
                        n,
                        dim,
                        results.len() as int,
                        w - 1,
                        v.len() as int,
                    ) == Some(GatherError::Dim(v[k].len() as usize));
                assert(results[w - 1]->0[k].len() != dim);
                assert(!shard_is_sound(results, n, dim, w - 1));
            }
        } else {
            assert(!shard_is_sound(results, n, dim, w - 1));
        }
        if gather_error(results, n, dim, w - 1) is None && gather_error(results, n, dim, w) is None {
            assert forall|x: int| 0 <= x < w implies #[trigger] shard_is_sound(
                results,
                n,
                dim,
                x,
            ) by {
                if x < w - 1 {
                    assert(shard_is_sound(results, n, dim, x));
                }
            }
        }
    }
    if w < results.len() && gather_error(results, n, dim, w) is None && results[w] is None {
        assert(gather_error(results, n, dim, w + 1) == Some(GatherError::Failed(w as usize)));
        lemma_gather_error(results, n, dim, w + 1, results.len() as int);
    }
}

/// What is wrong with the vectors of a shard.
proof fn lemma_vectors_sound(
    v: Seq<Seq<u32>>,
    n: int,
    dim: nat,
    count: int,
    w: int,
    k: int,
)
    requires
        0 <= k <= v.len(),
    ensures
        vectors_error(v, n, dim, count, w, k) is None ==> forall|i: int|
            0 <= i < k && nth_of_shard(w, i, count) < n ==> (#[trigger] v[i]).len() == dim,
        vectors_error(v, n, dim, count, w, k) is Some ==> exists|i: int|
            0 <= i < k && nth_of_shard(w, i, count) < n && #[trigger] v[i].len() != dim
                && vectors_error(v, n, dim, count, w, k) == Some(
                GatherError::Dim(v[i].len() as usize),
            ),
    decreases k,
{
    if k > 0 {
        lemma_vectors_sound(v, n, dim, count, w, k - 1);
        if vectors_error(v, n, dim, count, w, k - 1) is None && vectors_error(
            v,
            n,
            dim,
            count,
            w,
            k,
        ) is Some {
            assert(v[k - 1].len() != dim);
        }
    }
}

/// Vector `k` of shard `w` is that of the text which the shard got in its turn
/// `k`; a text for which its shard gave no vector has zeros.
pub proof fn law_gathered_in_turn(results: Seq<Option<Seq<Seq<u32>>>>, w: int, k: int, c: int)
    requires
        0 <= w < results.len(),
        0 <= k,
        results[w] is Some,
    ensures
        k < results[w]->0.len() ==> gathered(results, w + k * results.len(), c)
            == results[w]->0[k][c],
        k >= results[w]->0.len() ==> gathered(results, w + k * results.len(), c) == 0,
{
    let n = results.len() as int;
    lemma_row_index(k, w, n);
    assert(k * n + w == w + k * results.len());
}

/// The runs follow one another without a gap: the first starts at the first item,
/// the last ends behind the last, each but the last holds `size` items and none is
/// empty. So every item is in the run that its number calls for.
pub proof fn law_ranges_cover(ranges: Seq<(usize, usize)>, n: int, size: int, j: int, i: int)
    requires
        are_ranges(ranges, n, size),
        size >= 1,
        0 <= j < ranges.len(),
        0 <= i < n,
    ensures
        ranges[0].0 == 0,
        ranges[ranges.len() - 1].1 == n,
        ranges[j].0 < ranges[j].1 <= n,
        ranges[j].1 - ranges[j].0 <= size,
        j + 1 < ranges.len() ==> ranges[j].1 == ranges[j + 1].0 && ranges[j].1 - ranges[j].0
            == size,
        i / size < ranges.len(),
        ranges[i / size].0 <= i < ranges[i / size].1,
{
    let last = ranges.len() - 1;
    assert(ranges[0].0 == 0 * size);
    assert(ranges[last].0 == last * size);
    assert(last * size + size == ranges.len() * size) by (nonlinear_arith)
        requires
            last == ranges.len() - 1,
    ;
    if j + 1 < ranges.len() {
        assert(ranges[j + 1].0 == (j + 1) * size);
        assert((j + 1) * size == j * size + size) by (nonlinear_arith);
    }
    let q = i / size;
    lemma_fundamental_div_mod(i, size);
    lemma_mod_bound(i, size);
    assert(q * size == size * q) by (nonlinear_arith);
    if q >= ranges.len() {
        assert(ranges.len() * size <= q * size) by (nonlinear_arith)
            requires
                ranges.len() <= q,
                size >= 1,
        ;
    }
    assert(0 <= q) by (nonlinear_arith)
        requires
            i == size * q + i % size,
            0 <= i,
            0 <= i % size < size,
            size >= 1,
    ;
    assert(ranges[q].0 == q * size);
}

/// Padding keeps the texts and puts empty ones behind them, up to the length.
pub proof fn law_padding_is_empty(texts: Seq<Seq<char>>, len: nat)
    ensures
        padded(texts, len).len() == (if texts.len() < len {
            len
        } else {
            texts.len()
        }),
        padded(texts, len).take(texts.len() as int) == texts,
        forall|i: int| texts.len() <= i < len ==> (#[trigger] padded(texts, len)[i]).len() == 0,
{
    assert(padded(texts, len).take(texts.len() as int) =~= texts);
}

/// Vector `k` of batch `b` stands in row `b * size + k`, where no batch holds more
/// than `size` vectors, and a row that no batch reaches is zero.
pub proof fn law_batches_in_place(
    results: Seq<Seq<Seq<u32>>>,
    size: int,
    b: int,
    k: int,
    c: int,
)
    requires
        forall|x: int| 0 <= x < results.len() ==> (#[trigger] results[x]).len() <= size,
        0 <= b < results.len(),
        0 <= k < size,
    ensures
        k < results[b].len() ==> placed(results, size, b * size + k, c, results.len() as int)
            == results[b][k][c],
        k >= results[b].len() ==> placed(results, size, b * size + k, c, results.len() as int) == 0,
{
    lemma_last_batch(results, size, b, k, results.len() as int);
}

/// Which batch reaches a row.
proof fn lemma_last_batch(results: Seq<Seq<Seq<u32>>>, size: int, b: int, k: int, m: int)
    requires
        forall|x: int| 0 <= x < results.len() ==> (#[trigger] results[x]).len() <= size,
        0 <= b < results.len(),
        0 <= k < size,
        0 <= m <= results.len(),
    ensures
        last_batch(results, size, b * size + k, m) == (if b < m && k < results[b].len() {
            Some(b)
        } else {
            None
        }),
    decreases m,
{
    if m > 0 {
        let x = m - 1;
        lemma_last_batch(results, size, b, k, x);
        assert(results[x].len() <= size);
        if x < b {
            assert(x * size + size <= b * size) by (nonlinear_arith)
                requires
                    x + 1 <= b,
                    size >= 0,
            ;
        } else if x > b {
            assert(b * size + size <= x * size) by (nonlinear_arith)
                requires
                    b + 1 <= x,
                    size >= 0,
            ;
        }
    }
}

/// Where all shards before shard `w` are in order, and all of its vectors before
/// vector `k`, and that vector belongs to a text and has another length than the
/// dimension, then this length is the error.
pub proof fn law_first_bad_vector_decides(
    results: Seq<Option<Seq<Seq<u32>>>>,
    n: int,
    dim: nat,
    w: int,
    k: int,
)
    requires
        0 <= w < results.len() <= usize::MAX,
        forall|x: int| 0 <= x < w ==> #[trigger] shard_is_sound(results, n, dim, x),
        results[w] is Some,
        0 <= k < results[w]->0.len(),
        w + k * results.len() < n,
        results[w]->0[k].len() != dim,
        forall|i: int| 0 <= i < k ==> (#[trigger] results[w]->0[i]).len() == dim,
    ensures
        gather_error(results, n, dim, results.len() as int) == Some(
            GatherError::Dim(results[w]->0[k].len() as usize),
        ),
{
    let v = results[w]->0;
    let count = results.len() as int;
    law_gather_succeeds(results, n, dim, w);
    lemma_vectors_sound(v, n, dim, count, w, k);
    assert(nth_of_shard(w, k, count) < n);
    if vectors_error(v, n, dim, count, w, k) is Some {
        let i = choose|i: int|
            0 <= i < k && nth_of_shard(w, i, count) < n && #[trigger] v[i].len() != dim
                && vectors_error(v, n, dim, count, w, k) == Some(
                GatherError::Dim(v[i].len() as usize),
            );
        assert(results[w]->0[i].len() == dim);
    }
    assert(vectors_error(v, n, dim, count, w, k + 1) == Some(
        GatherError::Dim(v[k].len() as usize),
    ));
    lemma_vectors_error(v, n, dim, count, w, k + 1, v.len() as int);
    assert(gather_error(results, n, dim, w + 1) == Some(GatherError::Dim(v[k].len() as usize)));
    lemma_gather_error(results, n, dim, w + 1, count);
}

} // verus!
