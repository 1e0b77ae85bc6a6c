//! A paged cache of keys and values. Entries are single-precision patterns; pages are
//! allocated on demand and start with zeros.

use vstd::prelude::*;

verus! {

/// Positions per page where nothing else is asked for.
pub const DEFAULT_BLOCK_SIZE: usize = 32;

/// The sizes of a cache.
pub struct Dims {
    pub layers: nat,
    pub heads: nat,
    pub block: nat,
    pub dim: nat,
}

impl Dims {
    /// Entries in a page.
    pub open spec fn page_len(self) -> nat {
        self.layers * self.heads * self.block * self.dim
    }

    /// Where the entry of a layer, a head and a slot starts in a page.
    pub open spec fn offset(self, layer: nat, head: nat, slot: nat) -> nat {
        ((layer * self.heads + head) * self.block + slot) * self.dim
    }

    /// The entry of a layer, a head and a slot in a page.
    pub open spec fn entry(self, page: Seq<u32>, layer: nat, head: nat, slot: nat) -> Seq<u32> {
        page.subrange(
            self.offset(layer, head, slot) as int,
            (self.offset(layer, head, slot) + self.dim) as int,
        )
    }

    pub open spec fn valid(self, layer: nat, head: nat, slot: nat) -> bool {
        layer < self.layers && head < self.heads && slot < self.block
    }
}

/// A run of zeros.
pub open spec fn zeros(n: nat) -> Seq<u32> {
    Seq::new(n, |i: int| 0u32)
}

/// The entry at a position, from the pages; where the page is not allocated, zeros.
pub open spec fn entry_at(
    d: Dims,
    pages: Seq<Vec<u32>>,
    layer: nat,
    head: nat,
    pos: nat,
) -> Seq<u32> {
    let page = pos / d.block;
    if page < pages.len() {
        d.entry(pages[page as int]@, layer, head, pos % d.block)
    } else {
        zeros(d.dim)
    }
}

/// A paged cache of keys and values.
pub struct PagedKVCache {
    k_pages: Vec<Vec<u32>>,
    v_pages: Vec<Vec<u32>>,
    num_layers: usize,
    num_kv_heads: usize,
    max_seq_len: usize,
    block_size: usize,
    head_dim: usize,
    current_pos: usize,
}

proof fn lemma_offset_in_page(d: Dims, layer: nat, head: nat, slot: nat)
    requires
        d.valid(layer, head, slot),
    ensures
        d.offset(layer, head, slot) + d.dim <= d.page_len(),
        (layer * d.heads + head) * d.block + slot < d.layers * d.heads * d.block,
{
    let row = layer * d.heads + head;
    assert(row < d.layers * d.heads) by (nonlinear_arith)
        requires
            layer < d.layers,
            head < d.heads,
            row == layer * d.heads + head,
    ;
    let rows = d.layers * d.heads;
    assert(row * d.block + slot < rows * d.block) by (nonlinear_arith)
        requires
            row < rows,
            slot < d.block,
    ;
    let cell = row * d.block + slot;
    let cells = rows * d.block;
    assert(cell * d.dim + d.dim <= cells * d.dim) by (nonlinear_arith)
        requires
            cell < cells,
    ;
}

/// Different places do not overlap.
proof fn lemma_offsets_apart(
    d: Dims,
    l1: nat,
    h1: nat,
    s1: nat,
    l2: nat,
    h2: nat,
    s2: nat,
)
    requires
        d.valid(l1, h1, s1),
        d.valid(l2, h2, s2),
        (l1, h1, s1) != (l2, h2, s2),
    ensures
        d.offset(l1, h1, s1) + d.dim <= d.offset(l2, h2, s2) || d.offset(l2, h2, s2) + d.dim
            <= d.offset(l1, h1, s1),
{
    let r1 = l1 * d.heads + h1;
    let r2 = l2 * d.heads + h2;
    if r1 == r2 {
        vstd::arithmetic::div_mod::lemma_fundamental_div_mod_converse(
            r1 as int,
            d.heads as int,
            l1 as int,
            h1 as int,
        );
        vstd::arithmetic::div_mod::lemma_fundamental_div_mod_converse(
            r2 as int,
            d.heads as int,
            l2 as int,
            h2 as int,
        );
        assert(l1 == l2 && h1 == h2);
    }
    let c1 = r1 * d.block + s1;
    let c2 = r2 * d.block + s2;
    if c1 == c2 {
        vstd::arithmetic::div_mod::lemma_fundamental_div_mod_converse(
            c1 as int,
            d.block as int,
            r1 as int,
            s1 as int,
        );
        vstd::arithmetic::div_mod::lemma_fundamental_div_mod_converse(
            c2 as int,
            d.block as int,
            r2 as int,
            s2 as int,
        );
        assert(r1 == r2 && s1 == s2);
    }
    if c1 < c2 {
        assert(c1 * d.dim + d.dim <= c2 * d.dim) by (nonlinear_arith)
            requires
                c1 < c2,
        ;
    } else {
        assert(c2 * d.dim + d.dim <= c1 * d.dim) by (nonlinear_arith)
            requires
                c2 < c1,
        ;
    }
}

/// `dst` with the run from `off` on replaced by the run of `src` from `from` on.
pub open spec fn overwritten(
    dst: Seq<u32>,
    off: int,
    src: Seq<u32>,
    from: int,
    n: int,
) -> Seq<u32> {
    Seq::new(
        dst.len(),
        |i: int|
            if off <= i < off + n {
                src[from + i - off]
            } else {
                dst[i]
            },
    )
}

fn copy_into(dst: &mut Vec<u32>, off: usize, src: &[u32], from: usize, n: usize)
    requires
        off + n <= old(dst)@.len(),
        from + n <= src@.len(),
    ensures
        final(dst)@ == overwritten(old(dst)@, off as int, src@, from as int, n as int),
{
    let ghost before = dst@;
    let dst_len: usize = dst.len();
    let src_len: usize = src.len();
    let mut i: usize = 0;
    assert(dst@ =~= overwritten(before, off as int, src@, from as int, 0));
    while i < n
        invariant
            i <= n,
            off + n <= dst_len == before.len(),
            from + n <= src_len == src@.len(),
            dst@.len() == before.len(),
            dst@ == overwritten(before, off as int, src@, from as int, i as int),
        decreases n - i,
    {
        dst.set(off + i, src[from + i]);
        i += 1;
        assert(dst@ =~= overwritten(before, off as int, src@, from as int, i as int));
    }
}

proof fn lemma_entry_written(
    d: Dims,
    page: Seq<u32>,
    src: Seq<u32>,
    from: int,
    layer: nat,
    head: nat,
    slot: nat,
    l: nat,
    h: nat,
    s: nat,
)
    requires
        page.len() == d.page_len(),
        d.valid(layer, head, slot),
        d.valid(l, h, s),
        0 <= from,
        from + d.dim <= src.len(),
    ensures
        d.entry(
            overwritten(page, d.offset(layer, head, slot) as int, src, from, d.dim as int),
            l,
            h,
            s,
        ) == (if (l, h, s) == (layer, head, slot) {
            src.subrange(from, from + d.dim)
        } else {
            d.entry(page, l, h, s)
        }),
{
    let off = d.offset(layer, head, slot) as int;
    let page2 = overwritten(page, off, src, from, d.dim as int);
    lemma_offset_in_page(d, layer, head, slot);
    lemma_offset_in_page(d, l, h, s);
    if (l, h, s) == (layer, head, slot) {
        assert(d.entry(page2, l, h, s) =~= src.subrange(from, from + d.dim));
    } else {
        lemma_offsets_apart(d, layer, head, slot, l, h, s);
        assert(d.entry(page2, l, h, s) =~= d.entry(page, l, h, s));
    }
}

impl PagedKVCache {
    pub closed spec fn dims(&self) -> Dims {
        Dims {
            layers: self.num_layers as nat,
            heads: self.num_kv_heads as nat,
            block: self.block_size as nat,
            dim: self.head_dim as nat,
        }
    }

    /// Number of allocated pages.
    pub closed spec fn pages(&self) -> nat {
        self.k_pages@.len()
    }

    /// The next position to be written.
    pub closed spec fn pos(&self) -> nat {
        self.current_pos as nat
    }

    /// The key of a layer and a head at a position.
    pub closed spec fn key(&self, layer: nat, head: nat, pos: nat) -> Seq<u32> {
        entry_at(self.dims(), self.k_pages@, layer, head, pos)
    }

    /// The value of a layer and a head at a position.
    pub closed spec fn value(&self, layer: nat, head: nat, pos: nat) -> Seq<u32> {
        entry_at(self.dims(), self.v_pages@, layer, head, pos)
    }

    /// Pages are complete, come in pairs, and fit in memory.
    pub closed spec fn wf(&self) -> bool {
        &&& self.block_size > 0
        &&& self.dims().page_len() * 4 + 63 <= isize::MAX
        &&& self.k_pages@.len() == self.v_pages@.len()
        &&& forall|i: int|
            0 <= i < self.k_pages@.len() ==> (#[trigger] self.k_pages@[i])@.len()
                == self.dims().page_len()
        &&& forall|i: int|
            0 <= i < self.v_pages@.len() ==> (#[trigger] self.v_pages@[i])@.len()
                == self.dims().page_len()
    }

    /// That all but the contents and the position is as before.
    pub open spec fn same_sizes(&self, other: &PagedKVCache) -> bool {
        self.dims() == other.dims() && self.limit() == other.limit()
    }

    /// The length that the cache was made for.
    pub closed spec fn limit(&self) -> nat {
        self.max_seq_len as nat
    }

    /// A cache with pages of the default size.
    pub fn new(num_layers: usize, num_kv_heads: usize, max_seq_len: usize, head_dim: usize) -> (r:
        PagedKVCache)
        requires
            num_layers * num_kv_heads * DEFAULT_BLOCK_SIZE * head_dim * 4 + 63 <= isize::MAX,
        ensures
            r.wf(),
            r.dims() == (Dims {
                layers: num_layers as nat,
                heads: num_kv_heads as nat,
                block: DEFAULT_BLOCK_SIZE as nat,
                dim: head_dim as nat,
            }),
            r.limit() == max_seq_len,
            r.pages() == 0,
            r.pos() == 0,
    {
        PagedKVCache::with_block_size(
            num_layers,
            num_kv_heads,
            max_seq_len,
            head_dim,
            DEFAULT_BLOCK_SIZE,
        )
    }

    /// A cache with pages of `block_size` positions.
    pub fn with_block_size(
        num_layers: usize,
        num_kv_heads: usize,
        max_seq_len: usize,
        head_dim: usize,
        block_size: usize,
    ) -> (r: PagedKVCache)
        requires
            block_size > 0,
            num_layers * num_kv_heads * block_size * head_dim * 4 + 63 <= isize::MAX,
        ensures
            r.wf(),
            r.dims() == (Dims {
                layers: num_layers as nat,
                heads: num_kv_heads as nat,
                block: block_size as nat,
                dim: head_dim as nat,
            }),
            r.limit() == max_seq_len,
            r.pages() == 0,
            r.pos() == 0,
    {
        PagedKVCache {
            k_pages: Vec::new(),
            v_pages: Vec::new(),
            num_layers,
            num_kv_heads,
            max_seq_len,
            block_size,
            head_dim,
            current_pos: 0,
        }
    }

    fn page_entries(&self) -> (r: usize)
        requires
            self.wf(),
        ensures
            r == self.dims().page_len(),
    {
        let ghost d = self.dims();
        let a: u128 = self.num_layers as u128;
        let b: u128 = self.num_kv_heads as u128;
        let e: u128 = self.block_size as u128;
        let f: u128 = self.head_dim as u128;
        if self.num_layers == 0 || self.num_kv_heads == 0 || self.head_dim == 0 {
            assert(a * b * e * f == 0) by (nonlinear_arith)
                requires
                    a == 0 || b == 0 || f == 0,
            ;
            return 0;
        }
        assert(0 <= a * b <= a * b * e * f && 0 <= a * b * e <= a * b * e * f) by (nonlinear_arith)
            requires
                a >= 1,
                b >= 1,
                e >= 1,
                f >= 1,
        ;
        self.num_layers * self.num_kv_heads * self.block_size * self.head_dim
    }

    /// Allocates the pages up to one.
    fn ensure_page(&mut self, page_id: usize)
        requires
            old(self).wf(),
            page_id < usize::MAX,
        ensures
            final(self).wf(),
            final(self).same_sizes(old(self)),
            final(self).pos() == old(self).pos(),
            final(self).pages() == (if page_id < old(self).pages() {
                old(self).pages()
            } else {
                page_id as nat + 1
            }),
            forall|l: nat, h: nat, p: nat|
                l < old(self).dims().layers && h < old(self).dims().heads ==>
                    #[trigger] final(self).key(l, h, p) == old(self).key(l, h, p),
            forall|l: nat, h: nat, p: nat|
                l < old(self).dims().layers && h < old(self).dims().heads ==>
                    #[trigger] final(self).value(l, h, p) == old(self).value(l, h, p),
    {
        let n = self.page_entries();
        while page_id >= self.k_pages.len()
            invariant
                self.wf(),
                self.same_sizes(old(self)),
                self.current_pos == old(self).current_pos,
                n == self.dims().page_len(),
                page_id < usize::MAX,
                old(self).pages() <= self.pages(),
                self.pages() <= (if page_id < old(self).pages() {
                    old(self).pages()
                } else {
                    page_id as nat + 1
                }),
                forall|l: nat, h: nat, p: nat|
                    l < old(self).dims().layers && h < old(self).dims().heads
                        ==> #[trigger] self.key(l, h, p) == old(self).key(l, h, p),
                forall|l: nat, h: nat, p: nat|
                    l < old(self).dims().layers && h < old(self).dims().heads
                        ==> #[trigger] self.value(l, h, p) == old(self).value(l, h, p),
            decreases page_id + 1 - self.k_pages@.len(),
        {
            let ghost before = *self;
            let kp: Vec<u32> = vec![0u32; n];
            let vp: Vec<u32> = vec![0u32; n];
            self.k_pages.push(kp);
            self.v_pages.push(vp);
            proof {
                let d = self.dims();
                assert forall|l: nat, h: nat, p: nat|
                    l < d.layers && h < d.heads implies #[trigger] self.key(l, h, p) == before.key(
                    l,
                    h,
                    p,
                ) by {
                    lemma_fresh_page(d, before.k_pages@, kp, l, h, p);
                }
                assert forall|l: nat, h: nat, p: nat|
                    l < d.layers && h < d.heads implies #[trigger] self.value(l, h, p)
                    == before.value(l, h, p) by {
                    lemma_fresh_page(d, before.v_pages@, vp, l, h, p);
                }
            }
        }
    }

    /// The page of a position.
    pub fn page_id(&self, pos: usize) -> (r: usize)
        requires
            self.wf(),
        ensures
            r == pos as nat / self.dims().block,
    {
        pos / self.block_size
    }

    /// The slot of a position in its page.
    pub fn slot_in_page(&self, pos: usize) -> (r: usize)
        requires
            self.wf(),
        ensures
            r == pos as nat % self.dims().block,
            r < self.dims().block,
    {
        pos % self.block_size
    }

    /// Where an entry starts in a page.
    pub fn offset_in_page(&self, layer: usize, kv_head: usize, slot: usize) -> (r: usize)
        requires
            self.wf(),
            self.dims().valid(layer as nat, kv_head as nat, slot as nat),
        ensures
            r == self.dims().offset(layer as nat, kv_head as nat, slot as nat),
            r + self.dims().dim <= self.dims().page_len(),
    {
        let ghost d = self.dims();
        proof {
            lemma_offset_in_page(d, layer as nat, kv_head as nat, slot as nat);
            let row = layer * d.heads + kv_head;
            let cell = row * d.block + slot;
            assert(0 <= layer * d.heads) by (nonlinear_arith)
                requires
                    layer >= 0,
                    d.heads >= 0,
            ;
            assert(row <= row * d.block) by (nonlinear_arith)
                requires
                    row >= 0,
                    d.block >= 1,
            ;
            if d.dim >= 1 {
                assert(cell <= cell * d.dim) by (nonlinear_arith)
                    requires
                        cell >= 0,
                        d.dim >= 1,
                ;
            }
        }
        if self.head_dim == 0 {
            assert(((layer * d.heads + kv_head) * d.block + slot) * 0 == 0) by (nonlinear_arith);
            return 0;
        }
        ((layer * self.num_kv_heads + kv_head) * self.block_size + slot) * self.head_dim
    }

    /// Writes the keys and values of a layer at the current position.
    pub fn save(&mut self, layer: usize, k: &[u32], v: &[u32])
        requires
            old(self).wf(),
            layer < old(self).dims().layers,
            k@.len() >= old(self).dims().heads * old(self).dims().dim,
            v@.len() >= old(self).dims().heads * old(self).dims().dim,
            old(self).pos() < usize::MAX,
        ensures
            final(self).wf(),
            final(self).same_sizes(old(self)),
            final(self).pos() == old(self).pos(),
            final(self).holds(old(self).pos()),
            old(self).pages() <= final(self).pages(),
            written(old(self), final(self), layer as nat, old(self).pos(), k@, v@),
    {
        let pos = self.current_pos;
        self.save_at(layer, pos, k, v);
    }

    /// Whether the page of a position is allocated.
    pub open spec fn holds(&self, pos: nat) -> bool {
        pos / self.dims().block < self.pages()
    }

    /// Writes the keys and values of a layer at a position.
    pub fn save_at(&mut self, layer: usize, pos: usize, k: &[u32], v: &[u32])
        requires
            old(self).wf(),
            layer < old(self).dims().layers,
            k@.len() >= old(self).dims().heads * old(self).dims().dim,
            v@.len() >= old(self).dims().heads * old(self).dims().dim,
            pos < usize::MAX,
        ensures
            final(self).wf(),
            final(self).same_sizes(old(self)),
            final(self).pos() == old(self).pos(),
            final(self).holds(pos as nat),
            old(self).pages() <= final(self).pages(),
            written(old(self), final(self), layer as nat, pos as nat, k@, v@),
    {
        let ghost d = self.dims();
        let pid = self.page_id(pos);
        let slot = self.slot_in_page(pos);
        assert(pid <= pos) by (nonlinear_arith)
            requires
                pid == pos / self.block_size,
                self.block_size > 0,
        ;
        self.ensure_page(pid);
        let ghost mid = *self;
        let heads = self.num_kv_heads;
        let dim = self.head_dim;
        let mut h: usize = 0;
        while h < heads
            invariant
                self.wf(),
                self.same_sizes(old(self)),
                self.same_sizes(&mid),
                self.dims() == d,
                self.current_pos == old(self).current_pos,
                d.heads == heads,
                d.dim == dim,
                h <= heads,
                layer < d.layers,
                pid == pos as nat / d.block,
                slot == pos as nat % d.block,
                slot < d.block,
                pid < self.pages(),
                self.pages() == mid.pages(),
                k@.len() >= d.heads * d.dim,
                v@.len() >= d.heads * d.dim,
                forall|l: nat, e: nat, p: nat|
                    l < d.layers && e < d.heads ==> #[trigger] self.key(l, e, p) == (if l == layer
                        && p == pos && e < h {
                        k@.subrange((e * d.dim) as int, (e * d.dim + d.dim) as int)
                    } else {
                        mid.key(l, e, p)
                    }),
                forall|l: nat, e: nat, p: nat|
                    l < d.layers && e < d.heads ==> #[trigger] self.value(l, e, p) == (if l == layer
                        && p == pos && e < h {
                        v@.subrange((e * d.dim) as int, (e * d.dim + d.dim) as int)
                    } else {
                        mid.value(l, e, p)
                    }),
            decreases heads - h,
        {
            let ghost before = *self;
            assert(h * dim + dim <= heads * dim && 0 <= h * dim) by (nonlinear_arith)
                requires
                    0 <= h < heads,
            ;
            let _k_len: usize = k.len();
            let off = self.offset_in_page(layer, h, slot);
            let src = h * dim;
            copy_into(&mut self.k_pages[pid], off, k, src, dim);
            copy_into(&mut self.v_pages[pid], off, v, src, dim);
            proof {
                assert forall|l: nat, e: nat, p: nat|
                    l < d.layers && e < d.heads implies #[trigger] self.key(l, e, p) == (if l
                    == layer && p == pos && e == h {
                    k@.subrange(src as int, src + d.dim)
                } else {
                    before.key(l, e, p)
                }) by {
                    lemma_page_written(
                        d,
                        before.k_pages@,
                        self.k_pages@,
                        k@,
                        src as int,
                        layer as nat,
                        h as nat,
                        pos as nat,
                        l,
                        e,
                        p,
                    );
                }
                assert forall|l: nat, e: nat, p: nat|
                    l < d.layers && e < d.heads implies #[trigger] self.value(l, e, p) == (if l
                    == layer && p == pos && e == h {
                    v@.subrange(src as int, src + d.dim)
                } else {
                    before.value(l, e, p)
                }) by {
                    lemma_page_written(
                        d,
                        before.v_pages@,
                        self.v_pages@,
                        v@,
                        src as int,
                        layer as nat,
                        h as nat,
                        pos as nat,
                        l,
                        e,
                        p,
                    );
                }
            }
            h += 1;
        }
    }

    /// The key of a layer and a head at a position.
    pub fn get_k_unchecked(&self, layer: usize, kv_head: usize, pos: usize) -> (r: &[u32])
        requires
            self.wf(),
            layer < self.dims().layers,
            kv_head < self.dims().heads,
            self.holds(pos as nat),
        ensures
            r@ == self.key(layer as nat, kv_head as nat, pos as nat),
            r@.len() == self.dims().dim,
    {
        let pid = self.page_id(pos);
        let slot = self.slot_in_page(pos);
        let off = self.offset_in_page(layer, kv_head, slot);
        vstd::slice::slice_subrange(self.k_pages[pid].as_slice(), off, off + self.head_dim)
    }

    /// The value of a layer and a head at a position.
    pub fn get_v_unchecked(&self, layer: usize, kv_head: usize, pos: usize) -> (r: &[u32])
        requires
            self.wf(),
            layer < self.dims().layers,
            kv_head < self.dims().heads,
            self.holds(pos as nat),
        ensures
            r@ == self.value(layer as nat, kv_head as nat, pos as nat),
            r@.len() == self.dims().dim,
    {
        let pid = self.page_id(pos);
        let slot = self.slot_in_page(pos);
        let off = self.offset_in_page(layer, kv_head, slot);
        vstd::slice::slice_subrange(self.v_pages[pid].as_slice(), off, off + self.head_dim)
    }

    /// The keys of a layer and a head for all positions of a page, in order.
    pub fn k_page_ptr(&self, layer: usize, kv_head: usize, page_id: usize) -> (r: &[u32])
        requires
            self.wf(),
            layer < self.dims().layers,
            kv_head < self.dims().heads,
            page_id < self.pages(),
        ensures
            page_run(self.dims(), r@, |p: nat| self.key(layer as nat, kv_head as nat, p), page_id as nat),
    {
        let (start, len) = self.run_bounds(layer, kv_head);
        let r = vstd::slice::slice_subrange(self.k_pages[page_id].as_slice(), start, start + len);
        proof {
            lemma_page_run(
                self.dims(),
                self.k_pages@,
                layer as nat,
                kv_head as nat,
                page_id as nat,
                r@,
                |p: nat| self.key(layer as nat, kv_head as nat, p),
            );
        }
        r
    }

    /// The values of a layer and a head for all positions of a page, in order.
    pub fn v_page_ptr(&self, layer: usize, kv_head: usize, page_id: usize) -> (r: &[u32])
        requires
            self.wf(),
            layer < self.dims().layers,
            kv_head < self.dims().heads,
            page_id < self.pages(),
        ensures
            page_run(self.dims(), r@, |p: nat| self.value(layer as nat, kv_head as nat, p), page_id as nat),
    {
        let (start, len) = self.run_bounds(layer, kv_head);
        let r = vstd::slice::slice_subrange(self.v_pages[page_id].as_slice(), start, start + len);
        proof {
            lemma_page_run(
                self.dims(),
                self.v_pages@,
                layer as nat,
                kv_head as nat,
                page_id as nat,
                r@,
                |p: nat| self.value(layer as nat, kv_head as nat, p),
            );
        }
        r
    }

    fn run_bounds(&self, layer: usize, kv_head: usize) -> (r: (usize, usize))
        requires
            self.wf(),
            layer < self.dims().layers,
            kv_head < self.dims().heads,
        ensures
            r.0 == self.dims().offset(layer as nat, kv_head as nat, 0),
            r.1 == self.dims().block * self.dims().dim,
            r.0 + r.1 <= self.dims().page_len(),
    {
        let ghost d = self.dims();
        let start = self.offset_in_page(layer, kv_head, 0);
        let last = self.offset_in_page(layer, kv_head, self.block_size - 1);
        proof {
            let row = layer * d.heads + kv_head;
            assert((row * d.block + (d.block - 1)) * d.dim + d.dim == (row * d.block + 0) * d.dim
                + d.block * d.dim) by (nonlinear_arith);
        }
        (start, last + self.head_dim - start)
    }

    /// Steps to the next position.
    pub fn advance(&mut self)
        requires
            old(self).wf(),
            old(self).pos() < usize::MAX,
        ensures
            final(self).wf(),
            final(self).same_sizes(old(self)),
            final(self).pos() == old(self).pos() + 1,
            unchanged(old(self), final(self)),
    {
        self.current_pos = self.current_pos + 1;
    }

    /// The next position to be written.
    pub fn current_pos(&self) -> (r: usize)
        ensures
            r == self.pos(),
    {
        self.current_pos
    }

    /// The length that the cache was made for.
    pub fn max_seq_len(&self) -> (r: usize)
        ensures
            r == self.limit(),
    {
        self.max_seq_len
    }

    /// Positions per page.
    pub fn block_size(&self) -> (r: usize)
        ensures
            r == self.dims().block,
    {
        self.block_size
    }

    /// Number of allocated pages.
    pub fn page_count(&self) -> (r: usize)
        ensures
            r == self.pages(),
    {
        self.k_pages.len()
    }

    /// Goes back to the first position. What was written stays.
    pub fn reset(&mut self)
        requires
            old(self).wf(),
        ensures
            final(self).wf(),
            final(self).same_sizes(old(self)),
            final(self).pos() == 0,
            unchanged(old(self), final(self)),
    {
        self.current_pos = 0;
    }
}

/// That nothing but the position changed.
pub open spec fn unchanged(a: &PagedKVCache, b: &PagedKVCache) -> bool {
    &&& b.pages() == a.pages()
    &&& forall|l: nat, h: nat, p: nat| #[trigger] b.key(l, h, p) == a.key(l, h, p)
    &&& forall|l: nat, h: nat, p: nat| #[trigger] b.value(l, h, p) == a.value(l, h, p)
}

/// That `b` is `a` with the keys and values of a layer written at a position: each head has
/// its part of `k` and of `v` there, and every other entry is as it was.
pub open spec fn written(
    a: &PagedKVCache,
    b: &PagedKVCache,
    layer: nat,
    pos: nat,
    k: Seq<u32>,
    v: Seq<u32>,
) -> bool {
    let d = a.dims();
    &&& forall|l: nat, h: nat, p: nat|
        l < d.layers && h < d.heads ==> #[trigger] b.key(l, h, p) == (if l == layer && p == pos {
            k.subrange((h * d.dim) as int, (h * d.dim + d.dim) as int)
        } else {
            a.key(l, h, p)
        })
    &&& forall|l: nat, h: nat, p: nat|
        l < d.layers && h < d.heads ==> #[trigger] b.value(l, h, p) == (if l == layer && p == pos {
            v.subrange((h * d.dim) as int, (h * d.dim + d.dim) as int)
        } else {
            a.value(l, h, p)
        })
}

/// That `r` holds the entries of all positions of a page, in order.
pub open spec fn page_run(d: Dims, r: Seq<u32>, entry: spec_fn(nat) -> Seq<u32>, page: nat) -> bool {
    &&& r.len() == d.block * d.dim
    &&& forall|s: nat|
        s < d.block ==> r.subrange((s * d.dim) as int, (s * d.dim + d.dim) as int)
            == #[trigger] entry(page * d.block + s)
}

proof fn lemma_page_run(
    d: Dims,
    pages: Seq<Vec<u32>>,
    layer: nat,
    head: nat,
    page: nat,
    r: Seq<u32>,
    entry: spec_fn(nat) -> Seq<u32>,
)
    requires
        layer < d.layers,
        head < d.heads,
        d.block > 0,
        page < pages.len(),
        pages[page as int]@.len() == d.page_len(),
        d.offset(layer, head, 0) + d.block * d.dim <= d.page_len(),
        r == pages[page as int]@.subrange(
            d.offset(layer, head, 0) as int,
            (d.offset(layer, head, 0) + d.block * d.dim) as int,
        ),
        forall|p: nat| #[trigger] entry(p) == entry_at(d, pages, layer, head, p),
    ensures
        page_run(d, r, entry, page),
{
    assert forall|s: nat| s < d.block implies r.subrange(
        (s * d.dim) as int,
        (s * d.dim + d.dim) as int,
    ) == #[trigger] entry(page * d.block + s) by {
        vstd::arithmetic::div_mod::lemma_fundamental_div_mod_converse(
            (page * d.block + s) as int,
            d.block as int,
            page as int,
            s as int,
        );
        let row = layer * d.heads + head;
        assert((row * d.block + s) * d.dim == (row * d.block + 0) * d.dim + s * d.dim)
            by (nonlinear_arith);
        assert(s * d.dim + d.dim <= d.block * d.dim) by (nonlinear_arith)
            requires
                s < d.block,
        ;
        assert(r.subrange((s * d.dim) as int, (s * d.dim + d.dim) as int) =~= d.entry(
            pages[page as int]@,
            layer,
            head,
            s,
        ));
    }
}

proof fn lemma_fresh_page(
    d: Dims,
    pages: Seq<Vec<u32>>,
    page: Vec<u32>,
    l: nat,
    h: nat,
    p: nat,
)
    requires
        d.block > 0,
        l < d.layers,
        h < d.heads,
        page@.len() == d.page_len(),
        forall|i: int| 0 <= i < page@.len() ==> #[trigger] page@[i] == 0,
    ensures
        entry_at(d, pages.push(page), l, h, p) == entry_at(d, pages, l, h, p),
{
    let at = p / d.block;
    if at == pages.len() {
        let s = p % d.block;
        lemma_offset_in_page(d, l, h, s);
        assert(d.entry(page@, l, h, s) =~= zeros(d.dim));
    }
}

proof fn lemma_page_written(
    d: Dims,
    before: Seq<Vec<u32>>,
    after: Seq<Vec<u32>>,
    src: Seq<u32>,
    from: int,
    layer: nat,
    head: nat,
    pos: nat,
    l: nat,
    h: nat,
    p: nat,
)
    requires
        d.block > 0,
        layer < d.layers,
        head < d.heads,
        l < d.layers,
        h < d.heads,
        pos / d.block < before.len(),
        after.len() == before.len(),
        before[(pos / d.block) as int]@.len() == d.page_len(),
        0 <= from,
        from + d.dim <= src.len(),
        forall|i: int|
            0 <= i < before.len() && i != pos / d.block ==> (#[trigger] after[i])@ == before[i]@,
        after[(pos / d.block) as int]@ == overwritten(
            before[(pos / d.block) as int]@,
            d.offset(layer, head, pos % d.block) as int,
            src,
            from,
            d.dim as int,
        ),
    ensures
        entry_at(d, after, l, h, p) == (if l == layer && h == head && p == pos {
            src.subrange(from, from + d.dim)
        } else {
            entry_at(d, before, l, h, p)
        }),
{
    let at = p / d.block;
    if at < before.len() {
        if at == pos / d.block {
            lemma_entry_written(
                d,
                before[at as int]@,
                src,
                from,
                layer,
                head,
                pos % d.block,
                l,
                h,
                p % d.block,
            );
            vstd::arithmetic::div_mod::lemma_fundamental_div_mod(p as int, d.block as int);
            vstd::arithmetic::div_mod::lemma_fundamental_div_mod(pos as int, d.block as int);
        } else {
            assert(after[at as int]@ == before[at as int]@);
        }
    }
}

/// What was written is what is read: after the keys and values of a layer were written at a
/// position, reading them there gives them back, whatever is written to other layers or
/// positions after that.
pub proof fn law_read_back(
    a: &PagedKVCache,
    b: &PagedKVCache,
    c: &PagedKVCache,
    layer: nat,
    pos: nat,
    k: Seq<u32>,
    v: Seq<u32>,
    layer2: nat,
    pos2: nat,
    k2: Seq<u32>,
    v2: Seq<u32>,
    head: nat,
)
    requires
        a.dims() == b.dims(),
        layer < a.dims().layers,
        head < a.dims().heads,
        written(a, b, layer, pos, k, v),
        written(b, c, layer2, pos2, k2, v2),
        (layer, pos) != (layer2, pos2),
    ensures
        c.key(layer, head, pos) == k.subrange(
            (head * a.dims().dim) as int,
            (head * a.dims().dim + a.dims().dim) as int,
        ),
        c.value(layer, head, pos) == v.subrange(
            (head * a.dims().dim) as int,
            (head * a.dims().dim + a.dims().dim) as int,
        ),
{
    assert(b.key(layer, head, pos) == k.subrange(
        (head * a.dims().dim) as int,
        (head * a.dims().dim + a.dims().dim) as int,
    ));
    assert(c.key(layer, head, pos) == b.key(layer, head, pos));
    assert(c.value(layer, head, pos) == b.value(layer, head, pos));
}

/// A position is where its page and its slot say, and the run of a page holds at each slot the
/// key and the value that reading the position gives.
pub proof fn law_pages_hold_positions(
    cache: &PagedKVCache,
    layer: usize,
    head: usize,
    pos: usize,
    page: usize,
    slot: usize,
    keys: &[u32],
    values: &[u32],
    key: &[u32],
    value: &[u32],
    i: int,
)
    requires
        cache.wf(),
        call_ensures(PagedKVCache::page_id, (cache, pos), page),
        call_ensures(PagedKVCache::slot_in_page, (cache, pos), slot),
        call_ensures(PagedKVCache::k_page_ptr, (cache, layer, head, page), keys),
        call_ensures(PagedKVCache::v_page_ptr, (cache, layer, head, page), values),
        call_ensures(PagedKVCache::get_k_unchecked, (cache, layer, head, pos), key),
        call_ensures(PagedKVCache::get_v_unchecked, (cache, layer, head, pos), value),
        0 <= i < cache.dims().dim,
    ensures
        pos == page * cache.dims().block + slot,
        slot < cache.dims().block,
        keys@[slot * cache.dims().dim + i] == key@[i],
        values@[slot * cache.dims().dim + i] == value@[i],
{
    let d = cache.dims();
    vstd::arithmetic::div_mod::lemma_fundamental_div_mod(pos as int, d.block as int);
    assert(d.block * page == page * d.block) by (nonlinear_arith);
    let s = slot as nat;
    let at = (page * d.block + slot) as nat;
    assert(at == pos);
    lemma_slot_in_run(s as int, d.block as int, d.dim as int);
    let k = |p: nat| cache.key(layer as nat, head as nat, p);
    let v = |p: nat| cache.value(layer as nat, head as nat, p);
    assert(k(page as nat * d.block + s) == key@);
    assert(v(page as nat * d.block + s) == value@);
    let a = (s * d.dim) as int;
    assert(keys@.subrange(a, a + d.dim)[i] == keys@[a + i]);
    assert(values@.subrange(a, a + d.dim)[i] == values@[a + i]);
}

proof fn lemma_slot_in_run(s: int, block: int, dim: int)
    by (nonlinear_arith)
    requires
        0 <= s < block,
        dim >= 0,
    ensures
        0 <= s * dim,
        s * dim + dim <= block * dim,
{
}

/// Keys and values go in head by head: entry `i` of a head is the one of the written vector that
/// lies `i` behind the heads before it.
pub proof fn law_heads_in_order(
    a: &PagedKVCache,
    b: &PagedKVCache,
    layer: nat,
    pos: nat,
    k: Seq<u32>,
    v: Seq<u32>,
    head: nat,
    i: int,
)
    requires
        written(a, b, layer, pos, k, v),
        layer < a.dims().layers,
        head < a.dims().heads,
        k.len() >= a.dims().heads * a.dims().dim,
        v.len() >= a.dims().heads * a.dims().dim,
        0 <= i < a.dims().dim,
    ensures
        b.key(layer, head, pos)[i] == k[head * a.dims().dim + i],
        b.value(layer, head, pos)[i] == v[head * a.dims().dim + i],
        forall|l: nat, h: nat, p: nat|
            l < a.dims().layers && h < a.dims().heads && (l != layer || p != pos) ==> #[trigger] b.key(
                l,
                h,
                p,
            ) == a.key(l, h, p),
        forall|l: nat, h: nat, p: nat|
            l < a.dims().layers && h < a.dims().heads && (l != layer || p != pos) ==> #[trigger] b.value(
                l,
                h,
                p,
            ) == a.value(l, h, p),
{
    let d = a.dims();
    lemma_slot_in_run(head as int, d.heads as int, d.dim as int);
}

/// Entries of a page do not overlap: places differ by a whole entry at least, and later slots,
/// heads and layers lie behind.
pub proof fn law_entries_apart(
    d: Dims,
    layer: nat,
    head: nat,
    slot: nat,
    layer2: nat,
    head2: nat,
    slot2: nat,
)
    requires
        d.valid(layer, head, slot),
        d.valid(layer2, head2, slot2),
        layer < layer2 || (layer == layer2 && (head < head2 || (head == head2 && slot < slot2))),
    ensures
        d.offset(layer, head, slot) + d.dim <= d.offset(layer2, head2, slot2),
        d.offset(layer2, head2, slot2) + d.dim <= d.page_len(),
{
    let a = layer * d.heads + head;
    let b = layer2 * d.heads + head2;
    assert(layer < layer2 ==> a + 1 <= b) by (nonlinear_arith)
        requires
            a == layer * d.heads + head,
            b == layer2 * d.heads + head2,
            head < d.heads,
            head2 >= 0,
    ;
    let x = a * d.block + slot;
    let y = b * d.block + slot2;
    assert(a < b ==> x + 1 <= y) by (nonlinear_arith)
        requires
            x == a * d.block + slot,
            y == b * d.block + slot2,
            slot < d.block,
            slot2 >= 0,
    ;
    assert(x + 1 <= y);
    assert(x * d.dim + d.dim <= y * d.dim) by (nonlinear_arith)
        requires
            x + 1 <= y,
            d.dim >= 0,
    ;
    assert(y + 1 <= d.layers * d.heads * d.block) by (nonlinear_arith)
        requires
            y == (layer2 * d.heads + head2) * d.block + slot2,
            layer2 < d.layers,
            head2 < d.heads,
            slot2 < d.block,
            layer2 >= 0,
            head2 >= 0,
    ;
    assert(y * d.dim + d.dim <= d.layers * d.heads * d.block * d.dim) by (nonlinear_arith)
        requires
            y + 1 <= d.layers * d.heads * d.block,
            d.dim >= 0,
    ;
}

} // verus!
