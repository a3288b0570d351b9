//! How a pool of inference sessions shares out work: which session a call
//! tries first and in what order it tries the others, and how a batch of
//! items is cut into one contiguous chunk per session.
use vstd::prelude::*;

verus! {

/// The number of items per chunk when `n` items are shared among `s`
/// sessions: `n / s` rounded up, and at least one.
pub open spec fn chunk_size(n: int, s: int) -> int {
    let c = (n + s - 1) / s;
    if c < 1 {
        1
    } else {
        c
    }
}

/// The number of chunks of `n` items of `size` each (the last may be
/// shorter).
pub open spec fn chunk_count(n: int, size: int) -> int {
    (n + size - 1) / size
}

/// Chunk `k` of `n` items cut in chunks of `size`: from `k * size` to
/// `(k + 1) * size`, the last one ending at `n`.
pub open spec fn chunk_range(n: int, size: int, k: int) -> (int, int) {
    let end = (k + 1) * size;
    (k * size, if end < n {
        end
    } else {
        n
    })
}

proof fn lemma_chunk_count_bounds(n: int, size: int, k: int)
    requires
        n >= 0,
        size >= 1,
        k >= 0,
    ensures
        k * size < n <==> k < chunk_count(n, size),
{
    assert(k * size < n <==> k < (n + size - 1) / size) by (nonlinear_arith)
        requires
            n >= 0,
            size >= 1,
            k >= 0,
    {
        let q = (n + size - 1) / size;
        assert(q * size <= n + size - 1 < (q + 1) * size);
        if k * size < n {
            assert(k * size <= n - 1);
            assert(k < q + 1);
            if k == q {
                assert(q * size <= n - 1);
            }
        }
        if k < q {
            assert(k + 1 <= q);
            assert((k + 1) * size <= q * size);
        }
    };
}

proof fn lemma_chunk_size_fits(n: int, s: int)
    requires
        n >= 0,
        s >= 1,
    ensures
        chunk_size(n, s) >= 1,
        chunk_size(n, s) * s >= n,
{
    let c = (n + s - 1) / s;
    assert(c * s <= n + s - 1 < (c + 1) * s) by (nonlinear_arith)
        requires
            s >= 1,
            c == (n + s - 1) / s,
    ;
    assert(c * s >= n) by (nonlinear_arith)
        requires
            s >= 1,
            n + s - 1 < (c + 1) * s,
    ;
    if c < 1 {
        assert(1 * s >= n) by (nonlinear_arith)
            requires
                s >= 1,
                c < 1,
                c * s >= n,
                n >= 0,
        ;
    }
}

/// Cutting `n_items` items into chunks of [`chunk_size`] gives no more
/// chunks than there are sessions, so each chunk has a session of its own.
pub proof fn lemma_chunks_fit_sessions(n_items: nat, n_sessions: nat)
    requires
        n_sessions >= 1,
    ensures
        chunk_count(n_items as int, chunk_size(n_items as int, n_sessions as int)) <= n_sessions,
{
    let n = n_items as int;
    let s = n_sessions as int;
    let c = chunk_size(n, s);
    lemma_chunk_size_fits(n, s);
    lemma_chunk_count_bounds(n, c, s);
    assert(s * c >= n) by (nonlinear_arith)
        requires
            c * s >= n,
    ;
    if s < chunk_count(n, c) {
        assert(s * c < n);
    }
}

/// Splits `0..n_items` into at most `n_sessions` contiguous chunks of
/// [`chunk_size`] items each (the last may be shorter), in order; none when
/// there are no items.
pub fn chunk_ranges(n_items: usize, n_sessions: usize) -> (res: Vec<(usize, usize)>)
    requires
        n_sessions > 0,
    ensures
        res@.len() == chunk_count(n_items as int, chunk_size(n_items as int, n_sessions as int)),
        res@.len() <= n_sessions,
        forall|k: int|
            0 <= k < res@.len() ==> ((#[trigger] res@[k]).0 as int, res@[k].1 as int) == chunk_range(
                n_items as int,
                chunk_size(n_items as int, n_sessions as int),
                k,
            ),
{
    let ghost n = n_items as int;
    let ghost s = n_sessions as int;
    let q = n_items / n_sessions;
    proof {
        assert(n_items % n_sessions != 0 ==> q < n_items) by (nonlinear_arith)
            requires
                n_sessions >= 1,
                q == n_items / n_sessions,
        {
            if n_items % n_sessions != 0 {
                assert(n_sessions >= 2);
                assert(n_items == q * n_sessions + n_items % n_sessions);
            }
        };
    }
    let c0 = if n_items % n_sessions != 0 {
        q + 1
    } else {
        q
    };
    let size = if c0 < 1 {
        1
    } else {
        c0
    };
    proof {
        let d = (n + s - 1) / s;
        assert(d == c0) by (nonlinear_arith)
            requires
                s >= 1,
                n >= 0,
                d == (n + s - 1) / s,
                q == n / s,
                n % s != 0 ==> c0 == q + 1,
                n % s == 0 ==> c0 == q,
        {
            assert(n == q * s + n % s);
            assert(0 <= n % s < s);
            if n % s != 0 {
                assert((q + 1) * s <= n + s - 1 < (q + 2) * s);
            } else {
                assert(q * s <= n + s - 1 < (q + 1) * s);
            }
            assert(d * s <= n + s - 1 < (d + 1) * s);
        };
        assert(size == chunk_size(n, s));
        lemma_chunk_size_fits(n, s);
    }
    let mut out: Vec<(usize, usize)> = Vec::new();
    let mut start: usize = 0;
    let mut k: usize = 0;
    while start < n_items
        invariant
            size >= 1,
            size == chunk_size(n, s),
            n == n_items,
            k == out@.len(),
            start as int == if k * size < n {
                k * size
            } else {
                n
            },
            k > 0 ==> (k - 1) * size < n,
            forall|j: int|
                0 <= j < out@.len() ==> ((#[trigger] out@[j]).0 as int, out@[j].1 as int)
                    == chunk_range(n, size as int, j),
        decreases n_items - start,
    {
        let end = if n_items - start > size {
            start + size
        } else {
            n_items
        };
        proof {
            assert(k <= k * size) by (nonlinear_arith)
                requires
                    size >= 1,
            ;
            assert((k + 1) * size == k * size + size) by (nonlinear_arith);
            assert(chunk_range(n, size as int, k as int) == (start as int, end as int));
        }
        out.push((start, end));
        start = end;
        k = k + 1;
        proof {
            assert(k * size == (k - 1) * size + size) by (nonlinear_arith);
        }
    }
    proof {
        lemma_chunk_count_bounds(n, size as int, k as int);
        if k > 0 {
            lemma_chunk_count_bounds(n, size as int, k - 1);
        } else {
            assert(chunk_count(n, size as int) >= 0) by (nonlinear_arith)
                requires
                    n >= 0,
                    size >= 1,
            ;
            lemma_chunk_count_bounds(n, size as int, 0);
        }
        lemma_chunks_fit_sessions(n_items as nat, n_sessions as nat);
    }
    out
}

/// The position of try `off` of a call that starts at session
/// `counter % n`: the sessions are tried in a ring from there.
pub open spec fn probe_at(counter: int, n: int, off: int) -> int {
    (counter % n + off) % n
}

/// The sessions in the order a call tries them: from session `counter % n`
/// round the ring (see [`probe_at`]).
pub fn probe_order(counter: usize, n: usize) -> (res: Vec<usize>)
    requires
        n > 0,
    ensures
        res@.len() == n,
        forall|off: int| 0 <= off < n ==> (#[trigger] res@[off]) as int == probe_at(counter as int, n as int, off),
{
    let start = counter % n;
    let mut out: Vec<usize> = Vec::new();
    let mut off: usize = 0;
    while off < n
        invariant
            off <= n,
            n > 0,
            start == counter % n,
            out@.len() == off,
            forall|j: int| 0 <= j < off ==> (#[trigger] out@[j]) as int == probe_at(counter as int, n as int, j),
        decreases n - off,
    {
        let v = if off < n - start {
            start + off
        } else {
            off - (n - start)
        };
        proof {
            let x = start + off;
            assert(0 <= x < 2 * n);
            if x < n {
                assert(x % (n as int) == x) by (nonlinear_arith)
                    requires
                        0 <= x < n,
                ;
            } else {
                assert(x % (n as int) == x - n) by (nonlinear_arith)
                    requires
                        n <= x < 2 * n,
                ;
            }
        }
        out.push(v);
        off = off + 1;
    }
    out
}

/// The try at which a call that starts at session `counter % n` reaches
/// session `i`.
pub open spec fn probe_offset(counter: int, n: int, i: int) -> int {
    let st = counter % n;
    if i >= st {
        i - st
    } else {
        i + n - st
    }
}

/// A call tries every session exactly once: the tries are the sessions
/// `0..n`, each at one position.
pub proof fn lemma_probe_order_visits_each_once(counter: nat, n: nat)
    requires
        n > 0,
    ensures
        forall|off: int| 0 <= off < n ==> 0 <= #[trigger] probe_at(counter as int, n as int, off) < n,
        forall|a: int, b: int|
            0 <= a < n && 0 <= b < n && #[trigger] probe_at(counter as int, n as int, a) == #[trigger] probe_at(
                counter as int,
                n as int,
                b,
            ) ==> a == b,
        forall|i: int|
            0 <= i < n ==> 0 <= #[trigger] probe_offset(counter as int, n as int, i) < n && probe_at(
                counter as int,
                n as int,
                probe_offset(counter as int, n as int, i),
            ) == i,
{
    let m = n as int;
    let st = (counter as int) % m;
    assert(0 <= st < m) by (nonlinear_arith)
        requires
            m > 0,
            st == (counter as int) % m,
    ;
    assert forall|off: int| 0 <= off < n implies 0 <= #[trigger] probe_at(counter as int, n as int, off) < n by {
        let x = st + off;
        assert(x % m == if x < m { x } else { x - m }) by (nonlinear_arith)
            requires
                0 <= x < 2 * m,
        ;
    }
    assert forall|a: int, b: int|
        0 <= a < n && 0 <= b < n && #[trigger] probe_at(counter as int, n as int, a) == #[trigger] probe_at(
            counter as int,
            n as int,
            b,
        ) implies a == b by {
        let xa = st + a;
        let xb = st + b;
        assert(xa % m == if xa < m { xa } else { xa - m }) by (nonlinear_arith)
            requires
                0 <= xa < 2 * m,
        ;
        assert(xb % m == if xb < m { xb } else { xb - m }) by (nonlinear_arith)
            requires
                0 <= xb < 2 * m,
        ;
    }
    assert forall|i: int| 0 <= i < n implies 0 <= #[trigger] probe_offset(counter as int, n as int, i) < n
        && probe_at(counter as int, n as int, probe_offset(counter as int, n as int, i)) == i by {
        let off = probe_offset(counter as int, n as int, i);
        let x = st + off;
        assert(x % m == if x < m { x } else { x - m }) by (nonlinear_arith)
            requires
                0 <= x < 2 * m,
        ;
    }
}

} // verus!
