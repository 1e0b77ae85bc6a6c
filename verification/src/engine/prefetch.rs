//! Which parts of a mapped file are asked for ahead of their use.

use vstd::prelude::*;

use crate::gguf::file::GgufFile;
use crate::text::decimal;
use crate::text::is_digit;
use crate::text::law_numeral_round_trip;
use crate::text::push_decimal;

verus! {

/// The mapped file that is read ahead.
pub struct PrefetchEngine {
    pub mmap_len: usize,
}

impl PrefetchEngine {
    pub fn new(mmap_len: usize) -> (r: PrefetchEngine)
        ensures
            r.mmap_len == mmap_len,
    {
        PrefetchEngine { mmap_len }
    }

    /// The range to ask for; nothing where it does not lie within the file.
    pub fn prefetch_range(&self, offset: usize, len: usize) -> (r: Option<(usize, usize)>)
        ensures
            r == (if offset + len <= self.mmap_len {
                Some((offset, len))
            } else {
                None
            }),
    {
        if offset > self.mmap_len || len > self.mmap_len - offset {
            None
        } else {
            Some((offset, len))
        }
    }
}

/// A weight of a layer.
#[derive(Clone, Copy, Debug, PartialEq, Eq, Structural)]
pub enum LayerTensor {
    Q,
    K,
    V,
    Output,
    Gate,
    Up,
    Down,
    AttnNorm,
    FfnNorm,
}

impl LayerTensor {
    pub open spec fn spec_suffix(self) -> Seq<char> {
        match self {
            LayerTensor::Q => ".attn_q.weight"@,
            LayerTensor::K => ".attn_k.weight"@,
            LayerTensor::V => ".attn_v.weight"@,
            LayerTensor::Output => ".attn_output.weight"@,
            LayerTensor::Gate => ".ffn_gate.weight"@,
            LayerTensor::Up => ".ffn_up.weight"@,
            LayerTensor::Down => ".ffn_down.weight"@,
            LayerTensor::AttnNorm => ".attn_norm.weight"@,
            LayerTensor::FfnNorm => ".ffn_norm.weight"@,
        }
    }

    /// The name of the weight in a layer.
    pub open spec fn spec_name(self, layer: nat) -> Seq<char> {
        "blk."@ + decimal(layer) + self.spec_suffix()
    }

    /// The name of the weight in a layer.
    pub fn name(&self, layer: usize) -> (r: String)
        ensures
            r@ == self.spec_name(layer as nat),
    {
        let mut s = "blk.".to_owned();
        push_decimal(&mut s, layer as u64);
        match self {
            LayerTensor::Q => s.append(".attn_q.weight"),
            LayerTensor::K => s.append(".attn_k.weight"),
            LayerTensor::V => s.append(".attn_v.weight"),
            LayerTensor::Output => s.append(".attn_output.weight"),
            LayerTensor::Gate => s.append(".ffn_gate.weight"),
            LayerTensor::Up => s.append(".ffn_up.weight"),
            LayerTensor::Down => s.append(".ffn_down.weight"),
            LayerTensor::AttnNorm => s.append(".attn_norm.weight"),
            LayerTensor::FfnNorm => s.append(".ffn_norm.weight"),
        }
        s
    }
}

/// The matrices of a layer, in the order of their use.
pub open spec fn matrices() -> Seq<LayerTensor> {
    seq![
        LayerTensor::Q,
        LayerTensor::K,
        LayerTensor::V,
        LayerTensor::Output,
        LayerTensor::Gate,
        LayerTensor::Up,
        LayerTensor::Down,
    ]
}

/// The matrices of a layer, in the order of their use.
pub fn layer_matrices() -> (r: [LayerTensor; 7])
    ensures
        r@ == matrices(),
{
    let r: [LayerTensor; 7] = [
        LayerTensor::Q,
        LayerTensor::K,
        LayerTensor::V,
        LayerTensor::Output,
        LayerTensor::Gate,
        LayerTensor::Up,
        LayerTensor::Down,
    ];
    assert(r@ =~= matrices());
    r
}

/// The range of a tensor of the file, where it is there and lies within it.
pub open spec fn range_of(file: &GgufFile, name: Seq<char>) -> Option<(usize, usize)> {
    if exists|i: int| #[trigger] file.first_named(name, i) {
        let t = file.tensors@[choose|i: int| #[trigger] file.first_named(name, i)]@;
        if t.within(file.bytes().len()) {
            Some((t.offset as usize, t.bytes() as usize))
        } else {
            None
        }
    } else {
        None
    }
}

/// The ranges of the first `k` matrices of a layer, as far as they are there.
pub open spec fn ranges_upto(file: &GgufFile, layer: nat, k: nat) -> Seq<(usize, usize)>
    decreases k,
{
    if k == 0 {
        Seq::empty()
    } else {
        let rest = ranges_upto(file, layer, (k - 1) as nat);
        match range_of(file, matrices()[k - 1].spec_name(layer)) {
            Some(r) => rest.push(r),
            None => rest,
        }
    }
}

fn find_range(file: &GgufFile, name: &str) -> (r: Option<(usize, usize)>)
    ensures
        r == range_of(file, name@),
{
    match file.tensor_raw_offset_len(name) {
        Some((off, len)) => {
            proof {
                let i = choose|i: int| #[trigger]
                    file.first_named(name@, i) && file.tensors@[i]@.sized() && off
                        == file.tensors@[i].offset && len == file.tensors@[i]@.bytes();
                let j = choose|j: int| #[trigger] file.first_named(name@, j);
                lemma_first_unique(file, name@, i, j);
            }
            let size: usize = file.file_size();
            if off > size as u64 {
                return None;
            }
            PrefetchEngine::new(size).prefetch_range(off as usize, len)
        },
        None => {
            proof {
                if exists|i: int| #[trigger] file.first_named(name@, i) {
                    let j = choose|j: int| #[trigger] file.first_named(name@, j);
                    assert(file.tensors@[j].name@ == name@);
                    let i = choose|i: int| #[trigger]
                        file.first_named(name@, i) && !file.tensors@[i]@.sized();
                    lemma_first_unique(file, name@, i, j);
                }
            }
            None
        },
    }
}

proof fn lemma_first_unique(file: &GgufFile, name: Seq<char>, i: int, j: int)
    requires
        file.first_named(name, i),
        file.first_named(name, j),
    ensures
        i == j,
{
    if i < j {
        assert(file.tensors@[i].name@ != name);
    }
    if j < i {
        assert(file.tensors@[j].name@ != name);
    }
}

/// The ranges to ask for while layer `layer` is computed: those of the matrices of the next
/// layer, if there is one.
pub fn next_layer_ranges(file: &GgufFile, layer: usize, num_layers: usize) -> (r: Vec<
    (usize, usize),
>)
    ensures
        r@ == (if layer + 1 < num_layers {
            ranges_upto(file, (layer + 1) as nat, 7)
        } else {
            Seq::empty()
        }),
{
    let mut out: Vec<(usize, usize)> = Vec::new();
    if num_layers == 0 || layer >= num_layers - 1 {
        return out;
    }
    let ms = layer_matrices();
    let mut k: usize = 0;
    while k < 7
        invariant
            k <= 7,
            layer + 1 < num_layers,
            ms@ == matrices(),
            out@ == ranges_upto(file, (layer + 1) as nat, k as nat),
        decreases 7 - k,
    {
        let name = ms[k].name(layer + 1);
        if let Some(range) = find_range(file, name.as_str()) {
            out.push(range);
        }
        k += 1;
    }
    out
}

/// Every range that is asked for lies within the file.
pub proof fn law_ranges_within(file: &GgufFile, layer: nat, k: nat, i: int)
    requires
        0 <= i < ranges_upto(file, layer, k).len(),
        file.bytes().len() <= usize::MAX,
    ensures
        ranges_upto(file, layer, k)[i].0 + ranges_upto(file, layer, k)[i].1 <= file.bytes().len(),
    decreases k,
{
    if k > 0 {
        let rest = ranges_upto(file, layer, (k - 1) as nat);
        if i < rest.len() {
            law_ranges_within(file, layer, (k - 1) as nat, i);
        }
    }
}

/// The names of a layer's tensors in a file.
pub proof fn law_names_of_the_file(t: LayerTensor, layer: usize, r: String)
    requires
        call_ensures(LayerTensor::name, (&t, layer), r),
    ensures
        ({
            let front = "blk."@ + decimal(layer as nat);
            match t {
                LayerTensor::Q => r@ == front + ".attn_q.weight"@,
                LayerTensor::K => r@ == front + ".attn_k.weight"@,
                LayerTensor::V => r@ == front + ".attn_v.weight"@,
                LayerTensor::Output => r@ == front + ".attn_output.weight"@,
                LayerTensor::Gate => r@ == front + ".ffn_gate.weight"@,
                LayerTensor::Up => r@ == front + ".ffn_up.weight"@,
                LayerTensor::Down => r@ == front + ".ffn_down.weight"@,
                LayerTensor::AttnNorm => r@ == front + ".attn_norm.weight"@,
                LayerTensor::FfnNorm => r@ == front + ".ffn_norm.weight"@,
            }
        }),
{
}

/// Every tensor of every layer has a name of its own.
pub proof fn law_names_distinct(a: LayerTensor, m: nat, b: LayerTensor, n: nat)
    requires
        a.spec_name(m) == b.spec_name(n),
    ensures
        a == b,
        m == n,
{
    let x = a.spec_name(m);
    let y = b.spec_name(n);
    reveal_strlit("blk.");
    reveal_strlit(".attn_q.weight");
    reveal_strlit(".attn_k.weight");
    reveal_strlit(".attn_v.weight");
    reveal_strlit(".attn_output.weight");
    reveal_strlit(".ffn_gate.weight");
    reveal_strlit(".ffn_up.weight");
    reveal_strlit(".ffn_down.weight");
    reveal_strlit(".attn_norm.weight");
    reveal_strlit(".ffn_norm.weight");
    law_numeral_round_trip(m);
    law_numeral_round_trip(n);
    let (p, q) = (decimal(m), decimal(n));
    let (s, t) = (a.spec_suffix(), b.spec_suffix());
    assert(s[0] == '.' && t[0] == '.');
    assert(x[4 + p.len() as int] == s[0]);
    assert(y[4 + q.len() as int] == t[0]);
    assert(!is_digit('.'));
    if p.len() < q.len() {
        assert(y[4 + p.len() as int] == q[p.len() as int]);
        assert(is_digit(q[p.len() as int]));
    } else if q.len() < p.len() {
        assert(x[4 + q.len() as int] == p[q.len() as int]);
        assert(is_digit(p[q.len() as int]));
    }
    assert forall|i: int| 0 <= i < p.len() implies p[i] == q[i] by {
        assert(x[4 + i] == p[i]);
        assert(y[4 + i] == q[i]);
    }
    assert(p =~= q);
    assert(x.len() == 4 + p.len() + s.len());
    assert(y.len() == 4 + q.len() + t.len());
    assert forall|i: int| 0 <= i < s.len() implies s[i] == t[i] by {
        assert(x[4 + p.len() as int + i] == s[i]);
        assert(y[4 + q.len() as int + i] == t[i]);
    }
    assert(s[1] == t[1] && s[5] == t[5] && s[6] == t[6]);
}

/// The matrices of a layer are seven, each once: those of attention, then those of the
/// feed-forward part.
pub proof fn law_matrices_each_once(r: [LayerTensor; 7], t: LayerTensor)
    requires
        call_ensures(layer_matrices, (), r),
    ensures
        r@.no_duplicates(),
        r@.contains(t) <==> !(t is AttnNorm || t is FfnNorm),
        r@[0] is Q && r@[1] is K && r@[2] is V && r@[3] is Output && r@[4] is Gate && r@[5] is Up
            && r@[6] is Down,
{
    assert(r@[0] is Q && r@[1] is K && r@[2] is V && r@[3] is Output && r@[4] is Gate && r@[5] is Up
        && r@[6] is Down);
    if !(t is AttnNorm || t is FfnNorm) {
        let k: int = match t {
            LayerTensor::Q => 0,
            LayerTensor::K => 1,
            LayerTensor::V => 2,
            LayerTensor::Output => 3,
            LayerTensor::Gate => 4,
            LayerTensor::Up => 5,
            _ => 6,
        };
        assert(r@[k] == t);
    }
}

/// A range is asked for as it is, where it ends within the file, and not at all where it does
/// not.
pub proof fn law_range_within_map(e: &PrefetchEngine, offset: usize, len: usize, r: Option<(usize, usize)>)
    requires
        call_ensures(PrefetchEngine::prefetch_range, (e, offset, len), r),
    ensures
        r matches Some((o, n)) ==> o == offset && n == len && o + n <= e.mmap_len,
        r is None <==> offset + len > e.mmap_len,
{
}

proof fn lemma_ranges(file: &GgufFile, layer: nat, k: nat)
    requires
        k <= 7,
    ensures
        forall|i: int|
            0 <= i < ranges_upto(file, layer, k).len() ==> from_matrix(
                file,
                layer,
                k,
                #[trigger] ranges_upto(file, layer, k)[i],
            ),
        forall|m: int|
            0 <= m < k && (#[trigger] range_of(file, matrices()[m].spec_name(layer))) is Some
                ==> ranges_upto(file, layer, k).contains(
                range_of(file, matrices()[m].spec_name(layer))->0,
            ),
    decreases k,
{
    if k > 0 {
        let j = (k - 1) as nat;
        lemma_ranges(file, layer, j);
        let rest = ranges_upto(file, layer, j);
        let all = ranges_upto(file, layer, k);
        let last = range_of(file, matrices()[k - 1].spec_name(layer));
        assert forall|i: int| 0 <= i < all.len() implies from_matrix(
            file,
            layer,
            k,
            #[trigger] all[i],
        ) by {
            if i < rest.len() {
                assert(from_matrix(file, layer, j, rest[i]));
            } else {
                assert(last == Some(all[i]));
            }
        }
        assert forall|m: int|
            0 <= m < k && (#[trigger] range_of(
                file,
                matrices()[m].spec_name(layer),
            )) is Some implies all.contains(range_of(file, matrices()[m].spec_name(layer))->0) by {
            let r = range_of(file, matrices()[m].spec_name(layer))->0;
            if m < j {
                assert(rest.contains(r));
                let i = choose|i: int| 0 <= i < rest.len() && rest[i] == r;
                assert(all[i] == r);
            } else {
                assert(all[all.len() - 1] == r);
            }
        }
    }
}

/// Whether a range is that of one of the first `k` matrices of a layer.
pub open spec fn from_matrix(file: &GgufFile, layer: nat, k: nat, r: (usize, usize)) -> bool {
    exists|m: int|
        0 <= m < k && #[trigger] range_of(file, matrices()[m].spec_name(layer)) == Some(r)
}

/// While a layer is computed, the next one is asked for: the ranges of all its matrices that
/// the file has, and of nothing else; behind the last layer there is nothing to ask for.
pub proof fn law_next_layer_asked(
    file: &GgufFile,
    layer: usize,
    num_layers: usize,
    r: Vec<(usize, usize)>,
    t: LayerTensor,
    i: int,
)
    requires
        call_ensures(next_layer_ranges, (file, layer, num_layers), r),
        !(t is AttnNorm || t is FfnNorm),
        0 <= i < r@.len(),
    ensures
        layer + 1 < num_layers,
        range_of(file, t.spec_name((layer + 1) as nat)) matches Some(x) ==> r@.contains(x),
        exists|u: LayerTensor|
            !(u is AttnNorm || u is FfnNorm) && #[trigger] range_of(
                file,
                u.spec_name((layer + 1) as nat),
            ) == Some(r@[i]),
{
    let next = (layer + 1) as nat;
    lemma_ranges(file, next, 7);
    assert(from_matrix(file, next, 7, r@[i]));
    let m = choose|m: int|
        0 <= m < 7 && #[trigger] range_of(file, matrices()[m].spec_name(next)) == Some(r@[i]);
    let ms = matrices();
    assert(ms[0] is Q && ms[1] is K && ms[2] is V && ms[3] is Output && ms[4] is Gate && ms[5] is Up
        && ms[6] is Down);
    assert(!(ms[m] is AttnNorm || ms[m] is FfnNorm));
    let k: int = match t {
        LayerTensor::Q => 0,
        LayerTensor::K => 1,
        LayerTensor::V => 2,
        LayerTensor::Output => 3,
        LayerTensor::Gate => 4,
        LayerTensor::Up => 5,
        _ => 6,
    };
    assert(ms[k] == t);
}

} // verus!
