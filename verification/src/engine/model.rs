//! The configuration of a model, from its metadata.

use vstd::prelude::*;

use crate::gguf::error::GgufError;
use crate::gguf::metadata::arch_of;
use crate::gguf::metadata::freq_base;
use crate::gguf::metadata::kv_heads;
use crate::gguf::metadata::or_else;
use crate::gguf::metadata::resolved_u32;
use crate::gguf::metadata::holds;
use crate::gguf::metadata::resolved;
use crate::gguf::metadata::rope_dimension_defined;
use crate::gguf::metadata::rope_width;
use crate::gguf::metadata::ArrayView;
use crate::gguf::metadata::FloatSource;
use crate::gguf::metadata::Metadata;
use crate::gguf::metadata::ValueView;

verus! {

/// The size of the vocabulary where the metadata does not list it.
pub const DEFAULT_VOCAB: usize = 32000;

/// The sizes of a model.
#[derive(Debug)]
pub struct ModelConfig {
    pub architecture: String,
    pub num_layers: usize,
    pub num_heads: usize,
    pub num_kv_heads: usize,
    pub embed_dim: usize,
    pub context_len: usize,
    pub vocab_size: usize,
    pub rope_freq_base: FloatSource,
    pub rope_dim: usize,
}

/// The keys without which there is no configuration, in the order in which they are missed.
pub open spec fn missing_key(m: Map<Seq<char>, ValueView>) -> Option<Seq<char>> {
    if resolved_u32(m, "llama.block_count"@) is None {
        Some("llama.block_count"@)
    } else if resolved_u32(m, "llama.attention.head_count"@) is None {
        Some("llama.attention.head_count"@)
    } else if resolved_u32(m, "llama.embedding_length"@) is None {
        Some("llama.embedding_length"@)
    } else {
        None
    }
}

/// The number of tokens that the metadata lists.
pub open spec fn vocab_of(m: Map<Seq<char>, ValueView>) -> nat {
    let k = "tokenizer.ggml.tokens"@;
    if m.contains_key(k) {
        match m[k] {
            ValueView::Array(ArrayView::String(s)) => s.len(),
            _ => DEFAULT_VOCAB as nat,
        }
    } else {
        DEFAULT_VOCAB as nat
    }
}

impl ModelConfig {
    /// Reads the configuration from metadata. The metadata must give the width of the
    /// rotary embedding, or a number of heads to divide by that is not zero.
    pub fn from_metadata(md: &Metadata) -> (r: Result<ModelConfig, GgufError>)
        requires
            missing_key(md@) is None ==> rope_dimension_defined(md@),
        ensures
            match r {
                Ok(c) => {
                    &&& missing_key(md@) is None
                    &&& c.architecture@ == arch_of(md@)
                    &&& Some(c.num_layers as u32) == resolved_u32(md@, "llama.block_count"@)
                    &&& Some(c.num_heads as u32) == resolved_u32(
                        md@,
                        "llama.attention.head_count"@,
                    )
                    &&& c.num_layers <= u32::MAX && c.num_heads <= u32::MAX && c.embed_dim
                        <= u32::MAX
                    &&& c.num_kv_heads == kv_heads(md@)
                    &&& Some(c.embed_dim as u32) == resolved_u32(md@, "llama.embedding_length"@)
                    &&& c.context_len == or_else(resolved_u32(md@, "llama.context_length"@), 4096)
                    &&& c.vocab_size == vocab_of(md@)
                    &&& c.rope_freq_base == freq_base(md@)
                    &&& c.rope_dim == rope_width(md@)
                },
                Err(e) => missing_key(md@) matches Some(key) && (e matches
                    GgufError::MetadataKeyNotFound(k) && k@ == key),
            },
    {
        let architecture = md.architecture().to_owned();
        let num_layers: u32 = match md.n_layer() {
            Ok(v) => v,
            Err(e) => {
                return Err(e);
            },
        };
        let num_heads: u32 = match md.n_head() {
            Ok(v) => v,
            Err(e) => {
                return Err(e);
            },
        };
        let num_kv_heads: u32 = md.n_kv_head();
        let embed_dim: u32 = match md.n_embd() {
            Ok(v) => v,
            Err(e) => {
                return Err(e);
            },
        };
        let vocab_size: usize = match md.get("tokenizer.ggml.tokens") {
            Some(v) => match v.as_string_array() {
                Some(a) => a.len(),
                None => DEFAULT_VOCAB,
            },
            None => DEFAULT_VOCAB,
        };
        Ok(
            ModelConfig {
                architecture,
                num_layers: num_layers as usize,
                num_heads: num_heads as usize,
                num_kv_heads: num_kv_heads as usize,
                embed_dim: embed_dim as usize,
                context_len: md.n_ctx_train() as usize,
                vocab_size,
                rope_freq_base: md.rope_freq_base(),
                rope_dim: md.rope_dimension() as usize,
            },
        )
    }
}

/// A configuration is made of the numbers that the metadata has under the keys of the format, and
/// of nothing else; without the first three there is none.
pub proof fn law_config_from_keys(
    md: &Metadata,
    r: Result<ModelConfig, GgufError>,
    v: u32,
)
    requires
        call_ensures(ModelConfig::from_metadata, (md,), r),
    ensures
        r matches Ok(c) ==> {
            &&& holds(md@, "llama.block_count"@, v) ==> c.num_layers == v
            &&& holds(md@, "llama.attention.head_count"@, v) ==> c.num_heads == v
            &&& holds(md@, "llama.attention.head_count_kv"@, v) ==> c.num_kv_heads == v
            &&& holds(md@, "llama.embedding_length"@, v) ==> c.embed_dim == v
            &&& holds(md@, "llama.context_length"@, v) ==> c.context_len == v
            &&& holds(md@, "llama.rope.dimension_count"@, v) ==> c.rope_dim == v
        },
        resolved(md@, "llama.block_count"@) is None ==> r is Err,
        resolved(md@, "llama.attention.head_count"@) is None ==> r is Err,
        resolved(md@, "llama.embedding_length"@) is None ==> r is Err,
{
}

/// The vocabulary is as large as the list of tokens that the metadata has, or 32000 where it has
/// none.
pub proof fn law_vocabulary_counts_tokens(
    md: &Metadata,
    r: Result<ModelConfig, GgufError>,
    tokens: Seq<Seq<char>>,
)
    requires
        call_ensures(ModelConfig::from_metadata, (md,), r),
        r is Ok,
    ensures
        md@.contains_key("tokenizer.ggml.tokens"@) && md@["tokenizer.ggml.tokens"@] == ValueView::Array(
            ArrayView::String(tokens),
        ) ==> r->Ok_0.vocab_size == tokens.len(),
        !md@.contains_key("tokenizer.ggml.tokens"@) ==> r->Ok_0.vocab_size == 32000,
{
}

} // verus!
