//! The index of a shard of weights, and the reads by it.

use vstd::prelude::*;

use crate::text::same_text;

verus! {

/// Where the data of a tensor lies in a shard.
#[derive(Clone, Copy, Debug, PartialEq, Eq, Structural)]
pub struct TensorInfo {
    pub offset: u64,
    pub size: u64,
    pub n_blocks: u32,
}

/// A layer of a shard: its tensors by name. Of equal names, the last one counts.
#[derive(Debug)]
pub struct LayerInfo {
    pub id: u32,
    pub name: String,
    pub tensors: Vec<(String, TensorInfo)>,
}

/// The index of a shard.
#[derive(Debug)]
pub struct ShardIndex {
    pub format: String,
    pub model: String,
    pub quant: String,
    pub num_layers: u32,
    pub layers: Vec<LayerInfo>,
}

/// The tensor with a name in a list of tensors.
pub open spec fn tensor_named(s: Seq<(String, TensorInfo)>, name: Seq<char>) -> Option<TensorInfo>
    decreases s.len(),
{
    if s.len() == 0 {
        None
    } else if s.last().0@ == name {
        Some(s.last().1)
    } else {
        tensor_named(s.drop_last(), name)
    }
}

/// The tensor with a name in the first layer with an identifier.
pub open spec fn entry_of(s: Seq<LayerInfo>, layer: u32, name: Seq<char>) -> Option<TensorInfo>
    decreases s.len(),
{
    if s.len() == 0 {
        None
    } else if s[0].id == layer {
        tensor_named(s[0].tensors@, name)
    } else {
        entry_of(s.drop_first(), layer, name)
    }
}

fn find_tensor<'a>(v: &'a Vec<(String, TensorInfo)>, name: &str) -> (r: Option<&'a TensorInfo>)
    ensures
        match r {
            Some(t) => tensor_named(v@, name@) == Some(*t),
            None => tensor_named(v@, name@) is None,
        },
{
    let mut i: usize = v.len();
    assert(v@.take(i as int) =~= v@);
    while i > 0
        invariant
            i <= v@.len(),
            tensor_named(v@, name@) == tensor_named(v@.take(i as int), name@),
        decreases i,
    {
        i -= 1;
        proof {
            assert(v@.take(i + 1).drop_last() =~= v@.take(i as int));
            assert(v@.take(i + 1).last() == v@[i as int]);
        }
        if same_text(v[i].0.as_str(), name) {
            return Some(&v[i].1);
        }
    }
    None
}

impl ShardIndex {
    /// Where a tensor of a layer lies.
    pub fn layer_offsets(&self, layer_id: u32, tensor_name: &str) -> (r: Option<&TensorInfo>)
        ensures
            match r {
                Some(t) => entry_of(self.layers@, layer_id, tensor_name@) == Some(*t),
                None => entry_of(self.layers@, layer_id, tensor_name@) is None,
            },
    {
        let mut i: usize = 0;
        assert(self.layers@.skip(0) =~= self.layers@);
        while i < self.layers.len()
            invariant
                i <= self.layers@.len(),
                entry_of(self.layers@, layer_id, tensor_name@) == entry_of(
                    self.layers@.skip(i as int),
                    layer_id,
                    tensor_name@,
                ),
            decreases self.layers@.len() - i,
        {
            proof {
                assert(self.layers@.skip(i as int)[0] == self.layers@[i as int]);
                assert(self.layers@.skip(i as int).drop_first() =~= self.layers@.skip(i + 1));
            }
            if self.layers[i].id == layer_id {
                return find_tensor(&self.layers[i].tensors, tensor_name);
            }
            i += 1;
        }
        None
    }
}

/// A shard: its index and its data.
pub struct ShardReader<'a> {
    pub index: ShardIndex,
    pub data: &'a [u8],
}

impl<'a> ShardReader<'a> {
    /// The data of a tensor, where the index has it and the shard holds it.
    pub open spec fn spec_tensor(&self, layer: u32, name: Seq<char>) -> Option<Seq<u8>> {
        match entry_of(self.index.layers@, layer, name) {
            Some(t) => if t.offset + t.size <= self.data@.len() {
                Some(self.data@.subrange(t.offset as int, t.offset + t.size))
            } else {
                None
            },
            None => None,
        }
    }

    pub fn new(index: ShardIndex, data: &'a [u8]) -> (r: ShardReader<'a>)
        ensures
            r.index == index,
            r.data@ == data@,
    {
        ShardReader { index, data }
    }

    /// The data of a tensor.
    pub fn get_tensor(&self, layer_id: u32, tensor_name: &str) -> (r: Option<&'a [u8]>)
        ensures
            match r {
                Some(s) => self.spec_tensor(layer_id, tensor_name@) == Some(s@),
                None => self.spec_tensor(layer_id, tensor_name@) is None,
            },
    {
        match self.tensor_range(layer_id, tensor_name) {
            Some((start, end)) => Some(vstd::slice::slice_subrange(self.data, start, end)),
            None => None,
        }
    }

    /// The range of a tensor in the data.
    pub fn tensor_range(&self, layer_id: u32, tensor_name: &str) -> (r: Option<(usize, usize)>)
        ensures
            match r {
                Some((start, end)) => {
                    &&& start <= end <= self.data@.len()
                    &&& self.spec_tensor(layer_id, tensor_name@) == Some(
                        self.data@.subrange(start as int, end as int),
                    )
                    &&& entry_of(self.index.layers@, layer_id, tensor_name@) matches Some(t)
                        && start == t.offset && end == t.offset + t.size
                },
                None => self.spec_tensor(layer_id, tensor_name@) is None,
            },
    {
        match self.index.layer_offsets(layer_id, tensor_name) {
            Some(t) => {
                let len: u64 = self.data.len() as u64;
                if t.offset > len || t.size > len - t.offset {
                    return None;
                }
                Some((t.offset as usize, (t.offset + t.size) as usize))
            },
            None => None,
        }
    }

    /// Size of the data in bytes.
    pub fn total_size(&self) -> (n: usize)
        ensures
            n == self.data@.len(),
    {
        self.data.len()
    }
}

proof fn lemma_last_named(s: Seq<(String, TensorInfo)>, name: Seq<char>, j: int)
    requires
        0 <= j < s.len(),
        s[j].0@ == name,
        forall|k: int| j < k < s.len() ==> (#[trigger] s[k]).0@ != name,
    ensures
        tensor_named(s, name) == Some(s[j].1),
    decreases s.len(),
{
    if j < s.len() - 1 {
        assert(s[s.len() - 1].0@ != name);
        assert(s.drop_last()[j] == s[j]);
        lemma_last_named(s.drop_last(), name, j);
    }
}

proof fn lemma_none_named(s: Seq<(String, TensorInfo)>, name: Seq<char>)
    requires
        forall|k: int| 0 <= k < s.len() ==> (#[trigger] s[k]).0@ != name,
    ensures
        tensor_named(s, name) is None,
    decreases s.len(),
{
    if s.len() > 0 {
        assert(s[s.len() - 1].0@ != name);
        lemma_none_named(s.drop_last(), name);
    }
}

proof fn lemma_first_layer(s: Seq<LayerInfo>, layer: u32, name: Seq<char>, i: int)
    requires
        0 <= i < s.len(),
        s[i].id == layer,
        forall|k: int| 0 <= k < i ==> (#[trigger] s[k]).id != layer,
    ensures
        entry_of(s, layer, name) == tensor_named(s[i].tensors@, name),
    decreases s.len(),
{
    if i > 0 {
        assert(s[0].id != layer);
        assert(s.drop_first()[i - 1] == s[i]);
        lemma_first_layer(s.drop_first(), layer, name, i - 1);
    }
}

/// A tensor of a shard is the last of its name in the first layer with its identifier, and what is
/// read of it is as many bytes as its size, from its offset on; it is not read where the shard
/// ends before it does.
pub proof fn law_tensor_of_shard(
    reader: &ShardReader,
    layer: u32,
    name: &str,
    i: int,
    j: int,
    info: Option<&TensorInfo>,
    read: Option<&[u8]>,
    range: Option<(usize, usize)>,
)
    requires
        0 <= i < reader.index.layers@.len(),
        reader.index.layers@[i].id == layer,
        forall|k: int| 0 <= k < i ==> (#[trigger] reader.index.layers@[k]).id != layer,
        0 <= j < reader.index.layers@[i].tensors@.len(),
        reader.index.layers@[i].tensors@[j].0@ == name@,
        forall|k: int|
            j < k < reader.index.layers@[i].tensors@.len() ==> (#[trigger]
            reader.index.layers@[i].tensors@[k]).0@ != name@,
        call_ensures(ShardIndex::layer_offsets, (&reader.index, layer, name), info),
        call_ensures(ShardReader::get_tensor, (reader, layer, name), read),
        call_ensures(ShardReader::tensor_range, (reader, layer, name), range),
    ensures
        info == Some(&reader.index.layers@[i].tensors@[j].1),
        ({
            let t = reader.index.layers@[i].tensors@[j].1;
            &&& read is Some <==> t.offset + t.size <= reader.data@.len()
            &&& range is Some <==> read is Some
            &&& read matches Some(b) ==> b@.len() == t.size && forall|k: int|
                0 <= k < t.size ==> #[trigger] b@[k] == reader.data@[t.offset + k]
            &&& range matches Some((start, end)) ==> start == t.offset && end - start == t.size
        }),
{
    lemma_first_layer(reader.index.layers@, layer, name@, i);
    lemma_last_named(reader.index.layers@[i].tensors@, name@, j);
}

/// Nothing is found under a name that the first layer with the identifier does not hold.
pub proof fn law_no_such_tensor(
    reader: &ShardReader,
    layer: u32,
    name: &str,
    i: int,
    info: Option<&TensorInfo>,
    read: Option<&[u8]>,
)
    requires
        0 <= i < reader.index.layers@.len(),
        reader.index.layers@[i].id == layer,
        forall|k: int| 0 <= k < i ==> (#[trigger] reader.index.layers@[k]).id != layer,
        forall|k: int|
            0 <= k < reader.index.layers@[i].tensors@.len() ==> (#[trigger]
            reader.index.layers@[i].tensors@[k]).0@ != name@,
        call_ensures(ShardIndex::layer_offsets, (&reader.index, layer, name), info),
        call_ensures(ShardReader::get_tensor, (reader, layer, name), read),
    ensures
        info is None,
        read is None,
{
    lemma_first_layer(reader.index.layers@, layer, name@, i);
    lemma_none_named(reader.index.layers@[i].tensors@, name@);
}

} // verus!
