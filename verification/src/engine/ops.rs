//! The integer side of attention and of the rotary embedding: which positions are looked
//! at, where their keys and values lie, and which table row a position uses.

use vstd::prelude::*;

use crate::engine::cache::Dims;
use crate::engine::cache::PagedKVCache;

verus! {

/// The run of positions that attention reads from one page, both ends included.
#[derive(Clone, Copy, Debug, PartialEq, Eq, Structural)]
pub struct PageSpan {
    pub page: usize,
    pub start: usize,
    pub end: usize,
}

/// The last position that a query at `q_pos` may look at among `seq_len` positions.
pub open spec fn last_visible(q_pos: nat, seq_len: nat) -> nat {
    if q_pos <= seq_len - 1 {
        q_pos
    } else {
        (seq_len - 1) as nat
    }
}

/// The run of positions up to `last` on a page.
pub open spec fn span_of(page: int, last: nat, block: nat) -> PageSpan {
    PageSpan {
        page: page as usize,
        start: (page * block) as usize,
        end: if page * block + block - 1 <= last {
            (page * block + block - 1) as usize
        } else {
            last as usize
        },
    }
}

/// The runs of positions up to `last`, page by page.
pub open spec fn spans(last: nat, block: nat) -> Seq<PageSpan> {
    Seq::new(last / block + 1, |p: int| span_of(p, last, block))
}

/// What attention of one query reads: the runs of positions, page by page, and the positions
/// behind them that are masked.
#[derive(Debug)]
pub struct AttentionPlan {
    pub spans: Vec<PageSpan>,
    /// The last position that counts; those after it are masked.
    pub valid_end: usize,
    /// How many query heads share a head of keys and values.
    pub heads_per_kv: usize,
}

/// Plans the attention of a query at `q_pos` over `seq_len` positions.
pub fn attention(
    seq_len: usize,
    q_pos: usize,
    n_heads: usize,
    n_kv_heads: usize,
    block_size: usize,
) -> (r: AttentionPlan)
    requires
        seq_len >= 1,
        1 <= n_kv_heads <= n_heads,
        block_size >= 1,
    ensures
        r.valid_end == last_visible(q_pos as nat, seq_len as nat),
        r.heads_per_kv == n_heads / n_kv_heads,
        r.heads_per_kv >= 1,
        r.spans@ == spans(r.valid_end as nat, block_size as nat),
{
    let valid_end: usize = if q_pos <= seq_len - 1 {
        q_pos
    } else {
        seq_len - 1
    };
    let heads_per_kv: usize = n_heads / n_kv_heads;
    assert(heads_per_kv >= 1) by (nonlinear_arith)
        requires
            heads_per_kv == n_heads / n_kv_heads,
            1 <= n_kv_heads <= n_heads,
    ;
    let end_page: usize = valid_end / block_size;
    let mut out: Vec<PageSpan> = Vec::new();
    let mut page: usize = 0;
    loop
        invariant_except_break
            page <= end_page,
            out@ == spans(valid_end as nat, block_size as nat).take(page as int),
        invariant
            block_size >= 1,
            end_page == valid_end / block_size,
        ensures
            out@ == spans(valid_end as nat, block_size as nat),
        decreases end_page - page,
    {
        let ghost all = spans(valid_end as nat, block_size as nat);
        assert(page * block_size <= valid_end && 0 <= page * block_size) by (nonlinear_arith)
            requires
                0 <= page <= end_page,
                end_page == valid_end / block_size,
                block_size >= 1,
        ;
        let start: usize = page * block_size;
        let end: usize = if valid_end - start < block_size {
            valid_end
        } else {
            start + (block_size - 1)
        };
        out.push(PageSpan { page, start, end });
        assert(out@ =~= all.take(page + 1));
        if page == end_page {
            assert(all.take(page + 1) =~= all);
            break;
        }
        page += 1;
    }
    AttentionPlan { spans: out, valid_end, heads_per_kv }
}

/// The head of keys and values that a query head reads.
pub fn kv_head_of(head: usize, heads_per_kv: usize) -> (r: usize)
    requires
        heads_per_kv >= 1,
    ensures
        r == head / heads_per_kv,
{
    head / heads_per_kv
}

/// The runs cover every position up to the last one, each once: position `t` is in the run of
/// its page and in no other, at its slot.
pub proof fn law_spans_cover(last: nat, block: nat, t: nat, p: int)
    requires
        block >= 1,
        last <= usize::MAX,
        t <= last,
        0 <= p < spans(last, block).len(),
    ensures
        t / block < spans(last, block).len(),
        spans(last, block)[p].start <= t <= spans(last, block)[p].end <==> p == t / block,
        t - spans(last, block)[(t / block) as int].start == t % block,
{
    let q = t / block;
    vstd::arithmetic::div_mod::lemma_fundamental_div_mod(t as int, block as int);
    vstd::arithmetic::div_mod::lemma_fundamental_div_mod(last as int, block as int);
    vstd::arithmetic::div_mod::lemma_div_is_ordered(t as int, last as int, block as int);
    assert(block * q == q * block) by (nonlinear_arith);
    assert(0 <= p * block && p * block <= last) by (nonlinear_arith)
        requires
            0 <= p <= last / block,
            block >= 1,
    ;
    assert(q * block <= t < q * block + block);
    if p < q {
        assert(p * block + block <= q * block) by (nonlinear_arith)
            requires
                p < q,
                block >= 1,
        ;
    }
    if p > q {
        assert(q * block + block <= p * block) by (nonlinear_arith)
            requires
                q < p,
                block >= 1,
        ;
    }
}

/// Every query head reads a head of keys and values that is there, where they share evenly.
pub proof fn law_kv_head_in_range(head: nat, n_heads: nat, n_kv_heads: nat)
    requires
        n_kv_heads >= 1,
        n_heads % n_kv_heads == 0,
        head < n_heads,
    ensures
        head / (n_heads / n_kv_heads) < n_kv_heads,
{
    let r = n_heads / n_kv_heads;
    vstd::arithmetic::div_mod::lemma_fundamental_div_mod(n_heads as int, n_kv_heads as int);
    assert(n_heads == n_kv_heads * r);
    assert(r >= 1) by (nonlinear_arith)
        requires
            n_heads == n_kv_heads * r,
            n_heads >= 1,
            r >= 0,
    ;
    vstd::arithmetic::div_mod::lemma_fundamental_div_mod(head as int, r as int);
    assert(head / r < n_kv_heads) by (nonlinear_arith)
        requires
            head < n_kv_heads * r,
            r >= 1,
            head == r * (head / r) + head % r,
            0 <= head % r,
    ;
}

/// The keys or values of all heads for the first positions, head by head and position by
/// position.
pub open spec fn laid_out(
    d: Dims,
    entry: spec_fn(nat, nat) -> Seq<u32>,
    seq_len: nat,
    r: Seq<u32>,
) -> bool {
    &&& r.len() == d.heads * seq_len * d.dim
    &&& forall|h: nat, t: nat|
        h < d.heads && t < seq_len ==> r.subrange(
            ((h * seq_len + t) * d.dim) as int,
            ((h * seq_len + t) * d.dim + d.dim) as int,
        ) == #[trigger] entry(h, t)
}

/// Copies the keys and the values of the first heads of a layer for the first `seq_len`
/// positions out of the pages, head by head and position by position.
pub fn contiguous_kv(cache: &PagedKVCache, layer: usize, n_kv_heads: usize, seq_len: usize) -> (r: (
    Vec<u32>,
    Vec<u32>,
))
    requires
        cache.wf(),
        layer < cache.dims().layers,
        n_kv_heads <= cache.dims().heads,
        forall|t: nat| t < seq_len ==> #[trigger] cache.holds(t),
    ensures
        laid_out(
            (Dims { heads: n_kv_heads as nat, ..cache.dims() }),
            |h: nat, t: nat| cache.key(layer as nat, h, t),
            seq_len as nat,
            r.0@,
        ),
        laid_out(
            (Dims { heads: n_kv_heads as nat, ..cache.dims() }),
            |h: nat, t: nat| cache.value(layer as nat, h, t),
            seq_len as nat,
            r.1@,
        ),
{
    let ghost d = Dims { heads: n_kv_heads as nat, ..cache.dims() };
    let ghost kf = |h: nat, t: nat| cache.key(layer as nat, h, t);
    let ghost vf = |h: nat, t: nat| cache.value(layer as nat, h, t);
    let mut k: Vec<u32> = Vec::new();
    let mut v: Vec<u32> = Vec::new();
    let mut h: usize = 0;
    assert(0 * seq_len * d.dim == 0) by (nonlinear_arith);
    while h < n_kv_heads
        invariant
            cache.wf(),
            d == (Dims { heads: n_kv_heads as nat, ..cache.dims() }),
            layer < d.layers,
            n_kv_heads <= cache.dims().heads,
            h <= n_kv_heads,
            forall|t: nat| t < seq_len ==> #[trigger] cache.holds(t),
            kf == (|h: nat, t: nat| cache.key(layer as nat, h, t)),
            vf == (|h: nat, t: nat| cache.value(layer as nat, h, t)),
            filled(d, kf, seq_len as nat, (h * seq_len) as nat, k@),
            filled(d, vf, seq_len as nat, (h * seq_len) as nat, v@),
        decreases n_kv_heads - h,
    {
        let mut t: usize = 0;
        while t < seq_len
            invariant
                cache.wf(),
                d == (Dims { heads: n_kv_heads as nat, ..cache.dims() }),
                layer < d.layers,
                n_kv_heads <= cache.dims().heads,
                h < n_kv_heads,
                t <= seq_len,
                forall|t: nat| t < seq_len ==> #[trigger] cache.holds(t),
                kf == (|h: nat, t: nat| cache.key(layer as nat, h, t)),
                vf == (|h: nat, t: nat| cache.value(layer as nat, h, t)),
                filled(d, kf, seq_len as nat, (h * seq_len + t) as nat, k@),
                filled(d, vf, seq_len as nat, (h * seq_len + t) as nat, v@),
            decreases seq_len - t,
        {
            assert(cache.holds(t as nat));
            let ks = cache.get_k_unchecked(layer, h, t);
            let vs = cache.get_v_unchecked(layer, h, t);
            let ghost k0 = k@;
            let ghost v0 = v@;
            append_all(&mut k, ks);
            append_all(&mut v, vs);
            proof {
                assert(0 <= h * seq_len) by (nonlinear_arith)
                    requires
                        h >= 0,
                        seq_len >= 0,
                ;
                lemma_filled_next(d, kf, seq_len as nat, h as nat, t as nat, k0, ks@);
                lemma_filled_next(d, vf, seq_len as nat, h as nat, t as nat, v0, vs@);
            }
            t += 1;
        }
        assert((h + 1) * seq_len == h * seq_len + seq_len) by (nonlinear_arith);
        h += 1;
    }
    proof {
        lemma_filled_all(d, kf, seq_len as nat, k@);
        lemma_filled_all(d, vf, seq_len as nat, v@);
    }
    (k, v)
}

fn append_all(out: &mut Vec<u32>, src: &[u32])
    ensures
        final(out)@ == old(out)@ + src@,
{
    let mut i: usize = 0;
    assert(out@ =~= old(out)@ + src@.take(0));
    while i < src.len()
        invariant
            i <= src@.len(),
            out@ == old(out)@ + src@.take(i as int),
        decreases src@.len() - i,
    {
        out.push(src[i]);
        i += 1;
        assert(out@ =~= old(out)@ + src@.take(i as int));
    }
    assert(src@.take(i as int) =~= src@);
}

/// That the first `n` cells have been laid out.
spec fn filled(
    d: Dims,
    entry: spec_fn(nat, nat) -> Seq<u32>,
    seq_len: nat,
    n: nat,
    r: Seq<u32>,
) -> bool {
    &&& r.len() == n * d.dim
    &&& forall|h: nat, t: nat|
        h < d.heads && t < seq_len && h * seq_len + t < n ==> r.subrange(
            ((h * seq_len + t) * d.dim) as int,
            ((h * seq_len + t) * d.dim + d.dim) as int,
        ) == #[trigger] entry(h, t)
}

proof fn lemma_filled_next(
    d: Dims,
    entry: spec_fn(nat, nat) -> Seq<u32>,
    seq_len: nat,
    h: nat,
    t: nat,
    r: Seq<u32>,
    e: Seq<u32>,
)
    requires
        filled(d, entry, seq_len, h * seq_len + t, r),
        t < seq_len,
        h < d.heads,
        e.len() == d.dim,
        e == entry(h, t),
    ensures
        filled(d, entry, seq_len, h * seq_len + t + 1, r + e),
{
    let n = h * seq_len + t;
    assert((n + 1) * d.dim == n * d.dim + d.dim) by (nonlinear_arith);
    let w = r + e;
    assert forall|g: nat, u: nat| g < d.heads && u < seq_len && g * seq_len + u < n + 1 implies w.subrange(
        ((g * seq_len + u) * d.dim) as int,
        ((g * seq_len + u) * d.dim + d.dim) as int,
    ) == #[trigger] entry(g, u) by {
        let c = g * seq_len + u;
        if c < n {
            assert(c * d.dim + d.dim <= n * d.dim) by (nonlinear_arith)
                requires
                    c < n,
            ;
            assert(w.subrange((c * d.dim) as int, (c * d.dim + d.dim) as int) =~= r.subrange(
                (c * d.dim) as int,
                (c * d.dim + d.dim) as int,
            ));
        } else {
            vstd::arithmetic::div_mod::lemma_fundamental_div_mod_converse(
                n as int,
                seq_len as int,
                h as int,
                t as int,
            );
            vstd::arithmetic::div_mod::lemma_fundamental_div_mod_converse(
                c as int,
                seq_len as int,
                g as int,
                u as int,
            );
            assert(g == h && u == t);
            assert(w.subrange((c * d.dim) as int, (c * d.dim + d.dim) as int) =~= e);
        }
    }
}

proof fn lemma_filled_all(
    d: Dims,
    entry: spec_fn(nat, nat) -> Seq<u32>,
    seq_len: nat,
    r: Seq<u32>,
)
    requires
        filled(d, entry, seq_len, d.heads * seq_len, r),
    ensures
        laid_out(d, entry, seq_len, r),
{
    assert forall|h: nat, t: nat| h < d.heads && t < seq_len implies r.subrange(
        ((h * seq_len + t) * d.dim) as int,
        ((h * seq_len + t) * d.dim + d.dim) as int,
    ) == #[trigger] entry(h, t) by {
        assert(h * seq_len + t < d.heads * seq_len) by (nonlinear_arith)
            requires
                h < d.heads,
                t < seq_len,
        ;
    }
}

/// The first entry of the rotary table that a position uses: those behind the context use
/// its last row.
pub fn rope_row(pos: usize, max_context: usize, head_dim: usize) -> (r: usize)
    requires
        max_context >= 1,
        max_context * (head_dim / 2) <= usize::MAX,
    ensures
        r == (if pos <= max_context - 1 {
            pos as int
        } else {
            max_context - 1
        }) * (head_dim / 2),
        r + head_dim / 2 <= max_context * (head_dim / 2),
{
    let p: usize = if pos <= max_context - 1 {
        pos
    } else {
        max_context - 1
    };
    let half: usize = head_dim / 2;
    assert(p * half + half <= max_context * half && 0 <= p * half) by (nonlinear_arith)
        requires
            0 <= p < max_context,
            half >= 0,
    ;
    p * half
}

/// Attention is causal: its last position is the largest one that is there and is not behind
/// the query's own; and the heads are shared out evenly as far as they go.
pub proof fn law_attention_causal(
    seq_len: usize,
    q_pos: usize,
    n_heads: usize,
    n_kv_heads: usize,
    block_size: usize,
    r: AttentionPlan,
    t: nat,
)
    requires
        seq_len >= 1,
        1 <= n_kv_heads <= n_heads,
        block_size >= 1,
        call_ensures(attention, (seq_len, q_pos, n_heads, n_kv_heads, block_size), r),
    ensures
        t <= r.valid_end <==> t <= q_pos && t < seq_len,
        r.heads_per_kv * n_kv_heads <= n_heads < r.heads_per_kv * n_kv_heads + n_kv_heads,
{
    vstd::arithmetic::div_mod::lemma_fundamental_div_mod(n_heads as int, n_kv_heads as int);
    vstd::arithmetic::div_mod::lemma_mod_bound(n_heads as int, n_kv_heads as int);
    assert(n_kv_heads * r.heads_per_kv == r.heads_per_kv * n_kv_heads) by (nonlinear_arith);
}

/// The runs of attention cover the positions up to the last one, each once.
pub proof fn law_attention_covers(
    seq_len: usize,
    q_pos: usize,
    n_heads: usize,
    n_kv_heads: usize,
    block_size: usize,
    r: AttentionPlan,
    t: nat,
    p: int,
)
    requires
        seq_len >= 1,
        1 <= n_kv_heads <= n_heads,
        block_size >= 1,
        call_ensures(attention, (seq_len, q_pos, n_heads, n_kv_heads, block_size), r),
        0 <= p < r.spans@.len(),
    ensures
        r.spans@[p].start <= t <= r.spans@[p].end ==> t <= r.valid_end && t / block_size as nat == p,
        t <= r.valid_end && t / block_size as nat == p ==> r.spans@[p].start <= t <= r.spans@[p].end,
        r.spans@[p].page == p,
        r.spans@[p].start == p * block_size,
{
    let b = block_size as nat;
    let last = r.valid_end as nat;
    let s = r.spans@[p];
    vstd::arithmetic::div_mod::lemma_fundamental_div_mod(last as int, b as int);
    vstd::arithmetic::div_mod::lemma_mod_bound(last as int, b as int);
    assert(0 <= p * b <= last) by (nonlinear_arith)
        requires
            0 <= p <= last as int / b as int,
            last == b * (last as int / b as int) + last as int % b as int,
            last as int % b as int >= 0,
            b >= 1,
    ;
    if t <= last {
        law_spans_cover(last, b, t, p);
    }
}

/// Query heads in a row share a head of keys and values, as many as there are to each.
pub proof fn law_heads_share(head: usize, heads_per_kv: usize, r: usize)
    requires
        heads_per_kv >= 1,
        call_ensures(kv_head_of, (head, heads_per_kv), r),
    ensures
        r * heads_per_kv <= head < r * heads_per_kv + heads_per_kv,
{
    vstd::arithmetic::div_mod::lemma_fundamental_div_mod(head as int, heads_per_kv as int);
    vstd::arithmetic::div_mod::lemma_mod_bound(head as int, heads_per_kv as int);
    assert(heads_per_kv * r == r * heads_per_kv) by (nonlinear_arith);
}

/// Copied keys and values are those of the cache: head by head, and in a head position by
/// position.
pub proof fn law_contiguous_reads_back(
    cache: &PagedKVCache,
    layer: usize,
    n_kv_heads: usize,
    seq_len: usize,
    r: (Vec<u32>, Vec<u32>),
    head: usize,
    pos: usize,
    key: &[u32],
    value: &[u32],
    i: int,
)
    requires
        call_ensures(contiguous_kv, (cache, layer, n_kv_heads, seq_len), r),
        call_ensures(PagedKVCache::get_k_unchecked, (cache, layer, head, pos), key),
        call_ensures(PagedKVCache::get_v_unchecked, (cache, layer, head, pos), value),
        head < n_kv_heads,
        pos < seq_len,
        0 <= i < cache.dims().dim,
    ensures
        r.0@[(head * seq_len + pos) * cache.dims().dim + i] == key@[i],
        r.1@[(head * seq_len + pos) * cache.dims().dim + i] == value@[i],
{
    let d = cache.dims().dim as int;
    let at = (head * seq_len + pos) * d;
    let ghost k = |h: nat, t: nat| cache.key(layer as nat, h, t);
    let ghost v = |h: nat, t: nat| cache.value(layer as nat, h, t);
    assert(k(head as nat, pos as nat) == key@);
    assert(v(head as nat, pos as nat) == value@);
    assert(0 <= at && at + d <= n_kv_heads * seq_len * d) by (nonlinear_arith)
        requires
            at == (head * seq_len + pos) * d,
            0 <= head < n_kv_heads,
            0 <= pos < seq_len,
            d >= 0,
    ;
    assert(r.0@.subrange(at, at + d)[i] == r.0@[at + i]);
    assert(r.1@.subrange(at, at + d)[i] == r.1@[at + i]);
}

/// The rows of the table of rotations lie one behind the other, from position 0 on; positions
/// beyond the table have its last row.
pub proof fn law_rope_rows(
    pos: usize,
    next: usize,
    max_context: usize,
    head_dim: usize,
    r: usize,
    s: usize,
)
    requires
        max_context >= 1,
        call_ensures(rope_row, (pos, max_context, head_dim), r),
        call_ensures(rope_row, (next, max_context, head_dim), s),
        next == pos + 1,
    ensures
        pos == 0 ==> r == 0,
        next < max_context ==> s == r + head_dim / 2,
        next >= max_context ==> s == r,
{
    let h = (head_dim / 2) as int;
    assert(0 * h == 0 && (pos + 1) * h == pos * h + h) by (nonlinear_arith);
}

} // verus!
