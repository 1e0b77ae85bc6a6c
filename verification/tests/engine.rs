//! The engine: budgets, caches, drafts, generation, policies and streams.

use llamanyon::engine::aimd::{AimdRamp, INTERVAL};
use llamanyon::engine::cache::PagedKVCache;
use llamanyon::engine::chat_template::{format_chat_prompt, ChatMessage};
use llamanyon::engine::dspark::{
    fast_rand, DSparkEngine, NgramDraft, Tier, TokenCounts, Verdict, RAND_SEED,
};
use llamanyon::engine::executor::{
    cache_length, embedding_range, layer_ops, op_weights, prefill_batch, thread_count, Action,
    Generation, InferenceRequest, LayerOp, PrefillStep,
};
use llamanyon::engine::model::ModelConfig;
use llamanyon::engine::ops::{attention, contiguous_kv, kv_head_of, rope_row, PageSpan};
use llamanyon::engine::policy::{
    adapt_threads, should_reload, should_skip_layer, suggested_batch_size,
};
use llamanyon::engine::prefetch::{layer_matrices, LayerTensor, PrefetchEngine};
use llamanyon::engine::qat::{
    apply_all, apply_block, BlockJob, QatCalibrator, Rescale, RingLayout, Span,
};
use llamanyon::engine::scheduler::{
    gemv_fallback, kv_step, next_depth, window_length, window_slot, GemvGraphs, GemvOp, GemvStart,
    GraphCache, KvStep, Launch, PipelineDepth, PipelineToken,
};
use llamanyon::engine::thermal::{Coherence, ThermalLSC, ThermalState, CHECK_INTERVAL};
use llamanyon::engine::charsmap::{decode64, is_table_whole};
use llamanyon::engine::decoders::can_decode;
use llamanyon::engine::stages::can_encode;
use llamanyon::engine::tokenizer::{narrowed, with_bos, TextTokenizer};
use llamanyon::gguf::error::GgufError;
use llamanyon::gguf::metadata::{FloatSource, Metadata, MetadataArray, MetadataValue};

use tokenizers::decoders::bpe::BPEDecoder;
use tokenizers::decoders::ctc::CTC;
use tokenizers::decoders::fuse::Fuse;
use tokenizers::decoders::sequence::Sequence as Decodings;
use tokenizers::decoders::strip::Strip;
use tokenizers::models::wordlevel::WordLevel;
use tokenizers::normalizers::replace::ReplacePattern;
use tokenizers::normalizers::{Lowercase, Prepend, Replace, Sequence as Rewrites, Strip as StripEnds};
use tokenizers::pre_tokenizers::byte_level::ByteLevel;
use tokenizers::pre_tokenizers::fixed_length::FixedLength;
use tokenizers::pre_tokenizers::sequence::Sequence as Splits;
use tokenizers::pre_tokenizers::split::{Split, SplitPattern};
use tokenizers::pre_tokenizers::whitespace::Whitespace;
use tokenizers::processors::sequence::Sequence as Joins;
use tokenizers::processors::template::TemplateProcessing;
use tokenizers::{
    AddedToken, NormalizerWrapper, PaddingParams, PaddingStrategy, SplitDelimiterBehavior, Tokenizer,
    TruncationParams,
};

// --- budget ---------------------------------------------------------------

fn step_bytes(gbps: f64) -> u64 {
    (gbps * 1e9 * 0.05) as u64
}

#[test]
fn test_k_max_from_bandwidth() {
    let ramp = AimdRamp::new();
    let k = ramp.k_max_from_bandwidth(step_bytes(50.0), 100_000_000);
    assert_eq!(k, 25);
    let k = ramp.k_max_from_bandwidth(step_bytes(10.0), 100_000_000);
    assert_eq!(k, 5);
    let k = ramp.k_max_from_bandwidth(step_bytes(1.0), 200_000_000);
    assert_eq!(k, 1);
}

#[test]
fn test_scaled_k_never_zero() {
    let mut ramp = AimdRamp::new();
    for _ in 0..20 {
        ramp.force_assess(true, false);
    }
    for base_k in [1, 2, 3, 6, 10] {
        let k = ramp.scaled_k(base_k);
        assert!(k >= 1, "scaled_k({}) = {} should be >= 1", base_k, k);
    }
}

#[test]
fn test_consecutive_good_increases_k() {
    let mut ramp = AimdRamp::new();
    for _ in 0..4 {
        ramp.force_assess(false, 0.95 > 0.9);
    }
    assert!(!ramp.should_boost_k());
    assert_eq!(ramp.consecutive_good(), 4);
    ramp.force_assess(false, 0.95 > 0.9);
    assert!(ramp.should_boost_k());
    assert_eq!(ramp.consecutive_good(), 5);
    ramp.force_assess(false, 0.5 > 0.9);
    assert!(!ramp.should_boost_k());
    assert_eq!(ramp.consecutive_good(), 0);
}

#[test]
fn the_budget_halves_and_doubles_within_limits() {
    let mut ramp = AimdRamp::new();
    assert_eq!(ramp.budget(), 8);
    assert_eq!(ramp.concurrency(), 1);
    assert_eq!(ramp.force_assess(true, false), 4);
    assert!(ramp.just_stressed());
    for _ in 0..10 {
        ramp.force_assess(true, false);
    }
    assert_eq!(ramp.budget(), 1);
    assert_eq!(ramp.concurrency(), 1);
    for _ in 0..10 {
        ramp.force_assess(false, true);
    }
    assert_eq!(ramp.budget(), 128);
    assert_eq!(ramp.concurrency(), 16);
    assert_eq!(ramp.halvings(), 11);
    assert_eq!(ramp.cycles(), 21);
}

#[test]
fn windows_and_threads_scale_with_the_budget() {
    let mut ramp = AimdRamp::new();
    assert_eq!(ramp.scaled_k(6), 6);
    assert_eq!(ramp.scaled_threads(6), 6);
    // a budget of two: 6 * sqrt(2) = 8.49
    ramp.force_assess(false, true);
    assert_eq!(ramp.scaled_k(6), 8);
    assert_eq!(ramp.scaled_threads(6), 12);
    // a budget of eight: 6 * sqrt(8) = 16.97, at most twice the window
    ramp.force_assess(false, true);
    ramp.force_assess(false, true);
    assert_eq!(ramp.scaled_k(6), 12);
    assert_eq!(ramp.scaled_threads(6), 12);
    assert_eq!(ramp.scaled_threads(0), 1);
    assert_eq!(ramp.scaled_k(0), 0);
    // half a budget of eight is four, of which the root is two
    ramp.force_assess(true, false);
    assert_eq!(ramp.scaled_k(1 << 40), 1 << 41);
    ramp.force_assess(true, false);
    // 2^40 * sqrt(2)
    assert_eq!(ramp.scaled_k(1 << 40), 1554944255988);
}

#[test]
fn a_forced_assessment_is_the_last_one() {
    let mut ramp = AimdRamp::new();
    assert_eq!(ramp.force_assess_at(false, true, 90 * INTERVAL), 16);
    assert_eq!(ramp.assess_at(false, true, 90 * INTERVAL + 1), 16);
    assert_eq!(ramp.assess_at(false, true, 91 * INTERVAL), 32);
}

#[test]
fn assessments_keep_their_distance() {
    let mut ramp = AimdRamp::new();
    // the budget grows only so often
    assert_eq!(ramp.assess(false, true), 8);
    assert_eq!(ramp.assess_at(false, true, 60 * INTERVAL), 16);
    assert_eq!(ramp.assess_at(false, true, 60 * INTERVAL + 1), 16);
    assert_eq!(ramp.assess_at(false, true, 61 * INTERVAL - 1), 16);
    assert_eq!(ramp.assess_at(false, true, 61 * INTERVAL), 32);
    // stress cuts it at once
    assert_eq!(ramp.assess_at(true, false, 61 * INTERVAL + 1), 16);
    assert_eq!(ramp.assess_at(true, false, 61 * INTERVAL + 2), 8);
    assert_eq!(ramp.assess(true, false), 4);
    assert_eq!(ramp.halvings(), 3);
}

// --- keys and values ------------------------------------------------------

#[test]
fn test_paged_cache_basic_rw() {
    let mut cache = PagedKVCache::with_block_size(2, 4, 128, 64, 32);
    let n_layers = 2;
    let n_kv = 4;
    let head_dim = 64;
    for pos in 0..3 {
        let mut k = vec![0.0f32.to_bits(); n_kv * head_dim];
        let mut v = vec![0.0f32.to_bits(); n_kv * head_dim];
        for h in 0..n_kv {
            k[h * head_dim] = ((pos * 100 + h) as f32).to_bits();
            v[h * head_dim] = ((pos * 1000 + h) as f32).to_bits();
        }
        for l in 0..n_layers {
            cache.save(l, &k, &v);
        }
        cache.advance();
    }
    assert_eq!(cache.current_pos(), 3);
    for l in 0..n_layers {
        for h in 0..n_kv {
            for pos in 0..3 {
                let k_slice = cache.get_k_unchecked(l, h, pos);
                let v_slice = cache.get_v_unchecked(l, h, pos);
                assert_eq!(f32::from_bits(k_slice[0]), (pos * 100 + h) as f32);
                assert_eq!(f32::from_bits(v_slice[0]), (pos * 1000 + h) as f32);
            }
        }
    }
}

#[test]
fn test_paged_cache_multiple_pages() {
    let block_size = 8;
    let mut cache = PagedKVCache::with_block_size(1, 1, 1024, 64, block_size);
    let n_tokens = 32;
    for pos in 0..n_tokens {
        let k = vec![(pos as f32).to_bits(); 64];
        let v = vec![((pos * 2) as f32).to_bits(); 64];
        cache.save(0, &k, &v);
        cache.advance();
    }
    assert_eq!(cache.current_pos(), n_tokens);
    assert!(cache.page_count() >= n_tokens / block_size);
    for pos in 0..n_tokens {
        let k = cache.get_k_unchecked(0, 0, pos);
        let v = cache.get_v_unchecked(0, 0, pos);
        assert_eq!(f32::from_bits(k[0]), pos as f32);
        assert_eq!(f32::from_bits(v[0]), (pos * 2) as f32);
    }
    for pid in 0..(n_tokens / block_size) {
        let k = cache.k_page_ptr(0, 0, pid);
        let v = cache.v_page_ptr(0, 0, pid);
        assert_eq!(f32::from_bits(k[0]), (pid * block_size) as f32);
        assert_eq!(f32::from_bits(v[0]), (pid * block_size * 2) as f32);
    }
}

#[test]
fn test_paged_cache_reset() {
    let mut cache = PagedKVCache::with_block_size(1, 1, 1024, 64, 8);
    for pos in 0..10 {
        let k = vec![(pos as f32).to_bits(); 64];
        let v = vec![(pos as f32).to_bits(); 64];
        cache.save(0, &k, &v);
        cache.advance();
    }
    cache.reset();
    assert_eq!(cache.current_pos(), 0);
    let k = vec![42.0f32.to_bits(); 64];
    let v = vec![42.0f32.to_bits(); 64];
    cache.save(0, &k, &v);
    cache.advance();
    let k_read = cache.get_k_unchecked(0, 0, 0);
    assert_eq!(f32::from_bits(k_read[0]), 42.0);
}

#[test]
fn pages_and_slots_of_positions() {
    let cache = PagedKVCache::new(2, 3, 100, 4);
    assert_eq!(cache.block_size(), 32);
    assert_eq!(cache.max_seq_len(), 100);
    assert_eq!((cache.page_id(70), cache.slot_in_page(70)), (2, 6));
    assert_eq!(cache.offset_in_page(1, 2, 6), ((1 * 3 + 2) * 32 + 6) * 4);
}

#[test]
fn writes_elsewhere_change_nothing_here() {
    let mut cache = PagedKVCache::with_block_size(2, 2, 64, 2, 4);
    cache.save_at(1, 5, &[1, 2, 3, 4], &[5, 6, 7, 8]);
    cache.save_at(0, 5, &[9; 4], &[9; 4]);
    cache.save_at(1, 6, &[9; 4], &[9; 4]);
    assert_eq!(cache.get_k_unchecked(1, 1, 5).to_vec(), vec![3, 4]);
    assert_eq!(cache.get_v_unchecked(1, 0, 5).to_vec(), vec![5, 6]);
    assert_eq!(cache.page_count(), 2);
    cache.save_at(1, 0, &[7, 7, 7, 7], &[0; 4]);
    let (k, v) = contiguous_kv(&cache, 1, 2, 7);
    assert_eq!(k.len(), 28);
    // head 1, position 5
    assert_eq!(k[(7 + 5) * 2..(7 + 5) * 2 + 2].to_vec(), vec![3, 4]);
    assert_eq!(v[5 * 2..5 * 2 + 2].to_vec(), vec![5, 6]);
    assert_eq!(k[0..2].to_vec(), vec![7, 7]);
}

#[test]
fn attention_walks_the_pages() {
    let plan = attention(10, 20, 8, 2, 4);
    assert_eq!(plan.valid_end, 9);
    assert_eq!(plan.heads_per_kv, 4);
    assert_eq!(
        plan.spans,
        vec![
            PageSpan { page: 0, start: 0, end: 3 },
            PageSpan { page: 1, start: 4, end: 7 },
            PageSpan { page: 2, start: 8, end: 9 },
        ]
    );
    assert_eq!(attention(10, 2, 8, 8, 4).spans.len(), 1);
    assert_eq!(kv_head_of(7, 4), 1);
    assert_eq!(rope_row(3, 100, 8), 12);
    assert_eq!(rope_row(300, 100, 8), 99 * 4);
}

// --- drafts ---------------------------------------------------------------

#[test]
fn test_ngram_draft_basic() {
    let mut draft = NgramDraft::new();
    let corpus: Vec<usize> = vec![1, 2, 3, 1, 2, 3, 1, 2, 4, 1, 2, 3];
    draft.observe(&corpus);
    let (tokens, _) = draft.draft(&[1, 2], 2);
    assert_eq!(tokens.len(), 2);
    assert_eq!(tokens[0], 3, "trigram should predict 3 after [1,2]");
}

fn probability(c: &TokenCounts) -> f64 {
    let total = c.total as f64;
    let at_least_one = total.max(1.0);
    let tri = c.trigram as f64 / at_least_one;
    let bi = c.bigram as f64 / at_least_one;
    let uni = c.unigram as f64 / at_least_one;
    let laplace = 1.0 / (total + (c.vocab.max(1)) as f64);
    match c.tier() {
        Tier::Trigram => 0.7 * tri + 0.2 * bi + 0.1 * laplace,
        Tier::Bigram => 0.3 * bi + 0.5 * uni + 0.2 * laplace,
        Tier::Unigram => 0.8 * uni + 0.2 * laplace,
    }
}

fn softmax_at(logits: &[f32], token: usize) -> f64 {
    let max = logits.iter().cloned().fold(f32::NEG_INFINITY, f32::max);
    let sum: f64 = logits.iter().map(|l| ((l - max) as f64).exp()).sum();
    ((logits[token] - max) as f64).exp() / sum
}

#[test]
fn test_dspark_speculate_no_rejection() {
    let mut engine = DSparkEngine::new(2);
    let ctx = vec![1, 2];
    engine.draft_model.observe(&[1, 2, 3, 1, 2, 3]);
    let mut state = RAND_SEED;
    let mut s = engine.begin(&ctx, 3);
    while let Some(d) = s.pending() {
        let logits: Vec<f32> =
            (0..100).map(|i| if i == d || i == 3 { 10.0 } else { 0.0 }).collect();
        let target = softmax_at(&logits, d);
        let drafted = probability(&s.counts[s.next]);
        state = fast_rand(state);
        let r = state as f64 / u64::MAX as f64;
        let verdict = if target <= 0.0 {
            Verdict::Impossible
        } else if r < (target / drafted).min(1.0) {
            Verdict::Accept
        } else {
            Verdict::Resample(3)
        };
        engine.resolve(&mut s, verdict);
    }
    assert!(s.accepted.len() >= 2, "should accept at least 2 tokens");
}

#[test]
fn test_fast_rand_range() {
    let mut state = RAND_SEED;
    for _ in 0..1000 {
        state = fast_rand(state);
        let r = state as f64 / u64::MAX as f64;
        assert!(r >= 0.0 && r < 1.0, "fast_rand out of range: {}", r);
    }
}

#[test]
fn the_generator_steps_exactly() {
    assert_eq!(fast_rand(1), 0x4082_2041);
    assert_eq!(fast_rand(0), 0);
    assert!(fast_rand(u64::MAX) != 0);
}

#[test]
fn counts_behind_a_probability() {
    let mut draft = NgramDraft::new();
    draft.observe(&[1, 2, 3, 1, 2, 4]);
    let c = draft.token_probability(3, &[1, 2]);
    assert_eq!((c.trigram, c.bigram, c.unigram, c.total, c.vocab), (1, 1, 1, 6, 4));
    assert_eq!(c.tier(), Tier::Trigram);
    let c = draft.token_probability(3, &[9, 2]);
    assert_eq!((c.trigram, c.bigram), (0, 1));
    assert_eq!(c.tier(), Tier::Bigram);
    let c = draft.token_probability(7, &[]);
    assert_eq!((c.trigram, c.bigram, c.unigram), (0, 0, 0));
    assert_eq!(c.tier(), Tier::Unigram);
}

#[test]
fn a_draft_falls_back_to_shorter_contexts() {
    let mut draft = NgramDraft::new();
    assert_eq!(draft.draft(&[5], 1).0, vec![1]);
    draft.observe(&[5, 6, 5, 6, 7]);
    // no trigram starts with 9, 5: the bigrams say 6
    assert_eq!(draft.draft(&[9, 5], 1).0, vec![6]);
    // one token of context is no bigram context
    let first = draft.draft(&[5], 1).0[0];
    assert!(first == 5 || first == 6);
}

#[test]
fn verdicts_end_a_speculation() {
    let mut engine = DSparkEngine::new(3);
    engine.observe(&[1, 2, 3, 1, 2, 3]);
    let mut s = engine.begin(&[1, 2], 9);
    assert_eq!(s.accepted, vec![9]);
    assert_eq!(s.draft, vec![3, 1, 2]);
    engine.resolve(&mut s, Verdict::Accept);
    engine.resolve(&mut s, Verdict::Resample(8));
    assert_eq!(s.accepted, vec![9, 3, 8]);
    assert_eq!(s.pending(), None);
    let mut t = engine.begin(&[1, 2], 9);
    engine.resolve(&mut t, Verdict::Impossible);
    assert_eq!(t.accepted, vec![9]);
    assert_eq!(t.pending(), None);
    let stats = engine.stats();
    assert_eq!((stats.total_steps, stats.accepted_tokens, stats.rejected_steps), (2, 3, 2));
    engine.stats_mut().total_rollbacks = 4;
    assert_eq!(engine.stats().total_rollbacks, 4);
}

// --- generation -----------------------------------------------------------

#[test]
fn a_generation_prefills_and_decodes() {
    let mut g = Generation::start(vec![1, 5, 6], 2);
    assert_eq!(g.next(), Action::Prefill);
    g.prefill_done(7);
    assert_eq!(g.next(), Action::Decode { token: 7, pos: 3 });
    g.sample_done(8, true);
    assert_eq!(g.next(), Action::Finish);
    assert_eq!(g.tokens().to_vec(), vec![1, 5, 6, 7, 8]);
    assert_eq!(g.generated(), 2);
}

#[test]
fn a_generation_from_one_token_decodes_at_once() {
    let mut g = Generation::start(vec![1], 3);
    for (pos, token, sampled) in [(0, 1, 10), (1, 10, 11), (2, 11, 12)] {
        assert_eq!(g.next(), Action::Decode { token, pos });
        g.sample_done(sampled, true);
    }
    assert_eq!(g.next(), Action::Finish);
    assert_eq!(g.generated(), 3);
}

#[test]
fn a_generation_ends_where_nobody_listens() {
    let mut g = Generation::start(vec![1], 3);
    g.sample_done(10, false);
    assert_eq!(g.next(), Action::Finish);
    assert_eq!(g.generated(), 0);
}

#[test]
fn prefill_saves_before_it_attends() {
    let steps = prefill_batch(2);
    assert_eq!(steps.len(), 13);
    assert_eq!(steps[0], PrefillStep::All(LayerOp::NormAttn));
    assert_eq!(steps[2], PrefillStep::Save { pos: 0 });
    assert_eq!(steps[3], PrefillStep::Save { pos: 1 });
    assert_eq!(steps[4], PrefillStep::Attend { pos: 0, seq_len: 1 });
    assert_eq!(steps[5], PrefillStep::Attend { pos: 1, seq_len: 2 });
    assert_eq!(steps[12], PrefillStep::All(LayerOp::AddFfn));
}

#[test]
fn layers_work_in_order() {
    let ops = layer_ops();
    assert_eq!(ops[0], LayerOp::NormAttn);
    assert_eq!(ops[12], LayerOp::PrefetchNext);
    assert_eq!(op_weights(LayerOp::Project), vec![LayerTensor::Q, LayerTensor::K, LayerTensor::V]);
    assert!(op_weights(LayerOp::Attend).is_empty());
}

#[test]
fn small_decisions_of_a_generation() {
    assert_eq!(thread_count(true, Coherence::High), 1);
    assert_eq!(thread_count(false, Coherence::Low), 1);
    assert_eq!(thread_count(false, Coherence::Middle), 2);
    assert_eq!(thread_count(false, Coherence::High), 6);
    assert_eq!(embedding_range(2, 4, 12), Some((8, 12)));
    assert_eq!(embedding_range(3, 4, 12), None);
    assert_eq!(embedding_range(usize::MAX, 2, 12), None);
    assert_eq!(cache_length(100), 2048);
    assert_eq!(cache_length(4096), 4096);
}

fn message(role: &str, content: &str) -> ChatMessage {
    ChatMessage { role: role.to_string(), content: content.to_string() }
}

#[test]
fn chats_become_prompts() {
    let messages = vec![message("system", "S"), message("user", "U"), message("tool", "T")];
    assert_eq!(
        format_chat_prompt(&messages),
        "<|system|>\nS</s>\n<|user|>\nU</s>\n<|assistant|>\n"
    );
    assert_eq!(format_chat_prompt(&[]), "<|assistant|>\n");
    let mut r = InferenceRequest {
        prompt: Some("p".to_string()),
        messages: None,
        max_tokens: 1,
        temperature: 0,
        top_k: 1,
        top_p: 0,
    };
    assert_eq!(r.prompt_text(), "p");
    r.messages = Some(vec![message("assistant", "A")]);
    assert_eq!(r.prompt_text(), "<|assistant|>\nA</s>\n<|assistant|>\n");
    r.messages = None;
    r.prompt = None;
    assert_eq!(r.prompt_text(), "");
}

// --- configuration --------------------------------------------------------

#[test]
fn configuration_comes_from_metadata() {
    let mut md = Metadata::new();
    let put = |md: &mut Metadata, k: &str, v: u32| md.insert(k.to_string(), MetadataValue::U32(v));
    match ModelConfig::from_metadata(&md) {
        Err(GgufError::MetadataKeyNotFound(k)) => assert_eq!(k, "llama.block_count"),
        _ => panic!("a configuration without layers"),
    }
    put(&mut md, "llama.block_count", 22);
    match ModelConfig::from_metadata(&md) {
        Err(GgufError::MetadataKeyNotFound(k)) => assert_eq!(k, "llama.attention.head_count"),
        _ => panic!("a configuration without heads"),
    }
    put(&mut md, "llama.attention.head_count", 32);
    match ModelConfig::from_metadata(&md) {
        Err(GgufError::MetadataKeyNotFound(k)) => assert_eq!(k, "llama.embedding_length"),
        _ => panic!("a configuration without a width"),
    }
    put(&mut md, "llama.embedding_length", 2048);
    let c = match ModelConfig::from_metadata(&md) {
        Ok(c) => c,
        Err(e) => panic!("{}", e.message()),
    };
    assert_eq!((c.num_layers, c.num_heads, c.embed_dim), (22, 32, 2048));
    assert_eq!(c.num_kv_heads, 32);
    assert_eq!(c.rope_dim, 64);
    assert_eq!(c.vocab_size, 32000);
    assert_eq!(c.context_len, 4096);
    assert_eq!(c.rope_freq_base, FloatSource::F32(10000f32.to_bits()));
    md.insert(
        "tokenizer.ggml.tokens".to_string(),
        MetadataValue::Array(MetadataArray::String(vec!["a".to_string(), "b".to_string()])),
    );
    put(&mut md, "llama.attention.head_count_kv", 4);
    put(&mut md, "llama.rope.dimension_count", 16);
    match ModelConfig::from_metadata(&md) {
        Ok(c) => assert_eq!((c.num_kv_heads, c.rope_dim, c.vocab_size), (4, 16, 2)),
        Err(e) => panic!("{}", e.message()),
    }
}

// --- policy, prefetch and heat --------------------------------------------

#[test]
fn answers_of_a_policy_are_brought_into_range() {
    assert_eq!(adapt_threads(Some(0), 4), 1);
    assert_eq!(adapt_threads(Some(3), 4), 3);
    assert_eq!(adapt_threads(Some(90), 4), 6);
    assert_eq!(adapt_threads(None, 4), 4);
    assert!(should_skip_layer(Some(true)));
    assert!(!should_skip_layer(Some(false)));
    assert!(!should_skip_layer(None));
    assert_eq!(suggested_batch_size(Some(1)), 8);
    assert_eq!(suggested_batch_size(Some(9000)), 2048);
    assert_eq!(suggested_batch_size(None), 512);
    assert!(should_reload(2, 1));
    assert!(!should_reload(1, 1));
}

#[test]
fn only_ranges_of_the_file_are_asked_for() {
    let p = PrefetchEngine::new(100);
    assert_eq!(p.prefetch_range(90, 10), Some((90, 10)));
    assert_eq!(p.prefetch_range(91, 10), None);
    assert_eq!(p.prefetch_range(usize::MAX, 10), None);
    assert_eq!(layer_matrices()[3].name(12), "blk.12.attn_output.weight");
}

#[test]
fn throttling_shows_in_the_frequency() {
    let mut t = ThermalLSC::default();
    let start = 1_000 * CHECK_INTERVAL;
    assert!(t.check_due(start));
    assert!(!t.is_throttling(start, 1000));
    // 700 is not below seven tenths
    assert!(!t.is_throttling(start + CHECK_INTERVAL, 700));
    assert!(t.is_throttling(start + 2 * CHECK_INTERVAL, 699));
    // too soon for another look: the count says
    assert!(t.is_throttling(start + 2 * CHECK_INTERVAL + 1, 1000));
    assert!(!t.is_throttling(start + 3 * CHECK_INTERVAL, 1000));
    assert_eq!(t.coherence(599), Coherence::Low);
    assert_eq!(t.coherence(600), Coherence::Middle);
    assert_eq!(t.coherence(860), Coherence::High);
    assert_eq!(t.throttle_factor(100), 3);
    assert_eq!(t.throttle_factor(700), 7);
    assert_eq!(t.throttle_factor(1000), 10);
    assert_eq!(t.update_temperature(90f32.to_bits()), ThermalState::Normal);
    assert!(t.nanos() < 20_000_000_000);
}

#[test]
fn frequencies_are_read_from_text() {
    let t = ThermalLSC::new(75f32.to_bits(), 85f32.to_bits());
    assert_eq!(t.current_freq_khz(Some("2400000\n")), 2_400_000);
    assert_eq!(t.current_freq_khz(Some("  +17\t")), 17);
    assert_eq!(t.current_freq_khz(Some("")), 0);
    assert_eq!(t.current_freq_khz(Some("fast")), 0);
    assert_eq!(t.current_freq_khz(Some("18446744073709551616")), 0);
    assert_eq!(t.current_freq_khz(Some("18446744073709551615")), u64::MAX);
    assert_eq!(t.current_freq_khz(None), 0);
}

// --- tokens ---------------------------------------------------------------

fn words(list: &[(&str, u32)]) -> WordLevel {
    let vocab = list.iter().map(|(w, id)| (w.to_string(), *id)).collect();
    match WordLevel::builder().vocab(vocab).unk_token("[UNK]".to_string()).build() {
        Ok(m) => m,
        Err(_) => panic!("no model"),
    }
}

fn word_tokenizer() -> Tokenizer {
    let mut t = Tokenizer::new(words(&[("[UNK]", 0), ("hello", 5), ("world", 9)]));
    t.with_pre_tokenizer(Some(Whitespace {}));
    t
}

fn encode(t: &Tokenizer, text: &str) -> Option<Vec<usize>> {
    llamanyon::engine::tokenizer::encode(&TextTokenizer::new(t.clone()), text)
}

fn decode(t: &Tokenizer, ids: &[usize]) -> Option<String> {
    llamanyon::engine::tokenizer::decode(&TextTokenizer::new(t.clone()), ids)
}

fn prompt_tokens(t: &Tokenizer, text: &str) -> Option<Vec<usize>> {
    llamanyon::engine::tokenizer::prompt_tokens(&TextTokenizer::new(t.clone()), text)
}

#[test]
fn texts_become_tokens_behind_the_opening_one() {
    let t = word_tokenizer();
    assert!(TextTokenizer::new(t.clone()).is_ready());
    assert_eq!(encode(&t, "world hello mars"), Some(vec![1, 9, 5, 0]));
    assert_eq!(prompt_tokens(&t, "hello"), Some(vec![1, 5]));
    assert_eq!(prompt_tokens(&t, ""), Some(vec![1]));
    assert_eq!(with_bos(&vec![4, 6]), vec![1, 4, 6]);
}

#[test]
fn a_tokenizer_that_fails_gives_nothing() {
    // the word is not known, and there is no token for such words
    let t = Tokenizer::new(words(&[("hello", 5)]));
    assert_eq!(encode(&t, "mars"), None);
}

#[test]
fn tokens_become_texts() {
    let t = word_tokenizer();
    assert_eq!(decode(&t, &[5, 9]), Some("hello world".to_string()));
    assert_eq!(narrowed(&[3, 0x1_0000_0005]), vec![3, 5]);
}

#[test]
fn a_limit_keeps_its_overlap_below_it() {
    let mut t = word_tokenizer();
    let limit = |max_length, stride| {
        Some(TruncationParams { max_length, stride, ..TruncationParams::default() })
    };
    t.with_truncation(limit(2, 1)).unwrap();
    assert!(can_encode(&t));
    assert_eq!(encode(&t, "world hello mars"), Some(vec![1, 9, 5]));
    t.with_truncation(limit(2, 2)).unwrap();
    assert!(!can_encode(&t));
    assert_eq!(encode(&t, "world hello mars"), None);
    assert_eq!(prompt_tokens(&t, "world hello mars"), None);
    assert_eq!(prompt_tokens(&t, ""), Some(vec![1]));
    t.with_truncation(limit(0, 0)).unwrap();
    assert_eq!(encode(&t, "world"), Some(vec![1]));
}

#[test]
fn padding_has_a_limit() {
    let padded = |strategy, multiple| {
        let mut t = word_tokenizer();
        t.with_padding(Some(PaddingParams {
            strategy,
            pad_to_multiple_of: multiple,
            ..PaddingParams::default()
        }));
        encode(&t, "hello")
    };
    assert_eq!(padded(PaddingStrategy::Fixed(3), None), Some(vec![1, 5, 0, 0]));
    assert_eq!(padded(PaddingStrategy::BatchLongest, Some(2)), Some(vec![1, 5, 0]));
    assert_eq!(padded(PaddingStrategy::Fixed(usize::MAX), None), None);
    assert_eq!(padded(PaddingStrategy::BatchLongest, Some(usize::MAX)), None);
}

#[test]
fn added_tokens_keep_out_of_each_others_way() {
    let right = AddedToken::from("<a>", true).rstrip(true);
    let left = AddedToken::from(" ", true).lstrip(true);
    let mut t = word_tokenizer();
    t.add_special_tokens(&[right.clone()]);
    assert_eq!(encode(&t, "<a>  hello"), Some(vec![1, 3, 5]));
    t.add_special_tokens(&[AddedToken::from("<m>", true).lstrip(true)]);
    assert_eq!(encode(&t, "<a>  <m>hello  <m>"), Some(vec![1, 3, 4, 5, 4]));
    t.add_special_tokens(&[left.clone()]);
    assert_eq!(encode(&t, "<a>  x"), None);
    let mut t = word_tokenizer();
    t.add_special_tokens(&[left]);
    assert_eq!(encode(&t, "hello  world"), Some(vec![1, 5, 3, 3, 9]));
    let mut t = word_tokenizer();
    t.add_special_tokens(&[right.lstrip(true)]);
    assert_eq!(encode(&t, "hello <a>  world"), Some(vec![1, 5, 3, 9]));
}

#[test]
fn added_tokens_are_not_rewritten_to_nothing() {
    let mut t = word_tokenizer();
    t.with_normalizer(Some(StripEnds::new(true, true)));
    assert_eq!(encode(&t, "hello"), Some(vec![1, 5]));
    t.add_tokens(&[AddedToken::from("  ", false)]);
    assert_eq!(encode(&t, "hellé"), None);
    // without the normaliser the token is looked for as it is
    t.with_normalizer(None::<StripEnds>);
    assert_eq!(encode(&t, "é  hello"), Some(vec![1, 0, 3, 5]));
}

#[test]
fn nothing_goes_through_a_text_behind_a_front_that_stands_for_none() {
    let mut t = word_tokenizer();
    let stages = |v| Some(Rewrites::new(v));
    t.with_normalizer(stages(vec![Lowercase.into(), Prepend::new(String::new()).into()]));
    assert_eq!(encode(&t, "HELLO"), Some(vec![1, 5]));
    t.with_normalizer(stages(vec![Prepend::new(String::new()).into(), Lowercase.into()]));
    assert_eq!(encode(&t, "HELLO"), None);
    t.with_normalizer(stages(vec![Prepend::new("h".into()).into(), Lowercase.into()]));
    assert_eq!(encode(&t, "ELLO"), Some(vec![1, 5]));
    let front = || Replace::new(ReplacePattern::Regex("^".into()), "h").unwrap();
    t.with_normalizer(stages(vec![front().into()]));
    assert_eq!(encode(&t, "ello"), Some(vec![1, 5]));
    t.with_normalizer(stages(vec![front().into(), Lowercase.into()]));
    assert_eq!(encode(&t, "ello"), None);
    let runs = Replace::new(ReplacePattern::Regex(r"\s+".into()), " ").unwrap();
    t.with_normalizer(stages(vec![runs.into(), Lowercase.into()]));
    assert_eq!(encode(&t, " HELLO   World"), Some(vec![1, 5, 9]));
    let plain = Replace::new("E", "e").unwrap();
    t.with_normalizer(stages(vec![plain.into(), Lowercase.into()]));
    assert_eq!(encode(&t, "HEllo"), Some(vec![1, 5]));
    // byte by byte is a way through the text too
    t.with_normalizer(stages(vec![front().into()]));
    t.with_pre_tokenizer(Some(ByteLevel::new(false, true, true)));
    assert_eq!(encode(&t, "ello"), None);
    t.with_normalizer(None::<Rewrites>);
    assert_eq!(encode(&t, "hello"), Some(vec![1, 5]));
}

#[test]
fn patterns_keep_their_matches_in_order() {
    let mut t = word_tokenizer();
    let by = |p: &str| {
        let pattern = SplitPattern::Regex(p.into());
        Some(Split::new(pattern, SplitDelimiterBehavior::Removed, false).unwrap())
    };
    t.with_pre_tokenizer(by(r"\s"));
    assert_eq!(encode(&t, "hello world"), Some(vec![1, 5, 9]));
    t.with_pre_tokenizer(by(r"(?=o\K)"));
    assert_eq!(encode(&t, "hello world"), None);
}

/// A table that turns one character into a text, in base 64.
fn table(from: u8, to: &str, units: usize) -> String {
    let mut words = vec![0u32; units];
    words[from as usize] = from as u32 | 1 << 8 | 1 << 10;
    words[(from ^ 1) as usize] = 0x8000_0000;
    let mut bytes = (4 * units as u32).to_le_bytes().to_vec();
    bytes.extend(words.iter().flat_map(|w| w.to_le_bytes()));
    bytes.extend(to.as_bytes());
    bytes.push(0);
    base64(&bytes)
}

fn base64(bytes: &[u8]) -> String {
    let letters = b"ABCDEFGHIJKLMNOPQRSTUVWXYZabcdefghijklmnopqrstuvwxyz0123456789+/";
    let mut out = String::new();
    for c in bytes.chunks(3) {
        let n = c.iter().fold(0u32, |n, b| n << 8 | *b as u32) << (8 * (3 - c.len()));
        for i in 0..4 {
            if i <= c.len() {
                out.push(letters[(n >> (18 - 6 * i)) as usize % 64] as char);
            } else {
                out.push('=');
            }
        }
    }
    out
}

fn precompiled(text: &str) -> Option<NormalizerWrapper> {
    let json = format!("{{\"type\":\"Precompiled\",\"precompiled_charsmap\":\"{}\"}}", text);
    Some(serde_json::from_str(&json).unwrap())
}

#[test]
fn tables_are_whole() {
    let mut t = word_tokenizer();
    t.with_normalizer(precompiled(&table(b'x', "hello", 256)));
    assert_eq!(encode(&t, "x world"), Some(vec![1, 5, 9]));
    // a table without units, and one whose units end too soon
    t.with_normalizer(precompiled("AAAAAA=="));
    assert_eq!(encode(&t, "x world"), None);
    t.with_normalizer(precompiled(&table(b'x', "hello", 255)));
    assert_eq!(encode(&t, "x world"), None);
    let whole = decode64(&table(b'x', "hello", 256).into_bytes()).unwrap();
    assert!(is_table_whole(&whole));
    // a text that begins behind the end, or inside a character
    let mut cut = whole.clone();
    cut[4 + 4 * (b'x' ^ 1) as usize] = 7;
    assert!(!is_table_whole(&cut));
    let inside = decode64(&table(b'x', "\u{e9}", 256).into_bytes()).unwrap();
    let mut cut = inside.clone();
    assert!(is_table_whole(&cut));
    cut[4 + 4 * (b'x' ^ 1) as usize] = 1;
    assert!(!is_table_whole(&cut));
}

#[test]
fn base_64_is_read_back() {
    for n in 0..7 {
        let bytes: Vec<u8> = (0..n).map(|i| 37u8.wrapping_mul(i + 5)).collect();
        assert_eq!(decode64(&base64(&bytes).into_bytes()), Some(bytes));
    }
    assert_eq!(decode64(&b"TWFu".to_vec()), Some(b"Man".to_vec()));
    assert_eq!(decode64(&b"TWE=".to_vec()), Some(b"Ma".to_vec()));
    assert_eq!(decode64(&b"TW".to_vec()), None);
    assert_eq!(decode64(&b"T*Fu".to_vec()), None);
}

#[test]
fn pieces_are_not_empty() {
    let mut t = word_tokenizer();
    t.with_pre_tokenizer(Some(FixedLength::new(5)));
    assert_eq!(encode(&t, "helloworld"), Some(vec![1, 5, 9]));
    t.with_pre_tokenizer(Some(FixedLength::new(0)));
    assert_eq!(encode(&t, "helloworld"), None);
    let parts = vec![Whitespace {}.into(), FixedLength::new(0).into()];
    t.with_pre_tokenizer(Some(Splits::new(parts)));
    assert_eq!(encode(&t, "helloworld"), None);
    let parts = vec![Whitespace {}.into(), FixedLength::new(5).into()];
    t.with_pre_tokenizer(Some(Splits::new(parts)));
    assert_eq!(encode(&t, "hello worldhello"), Some(vec![1, 5, 9, 5]));
}

#[test]
fn templates_have_a_place_for_one_text() {
    let template = |single: &str| {
        let special = vec![("Bq\"q", 7u32)];
        let mut b = TemplateProcessing::builder();
        b.try_single(single).unwrap().special_tokens(special).build().unwrap()
    };
    let mut t = word_tokenizer();
    t.with_post_processor(Some(template("$A")));
    assert_eq!(encode(&t, "hello"), Some(vec![1, 5]));
    // what the name of a special token holds is no place
    t.with_post_processor(Some(template("Bq\"q $A")));
    assert_eq!(encode(&t, "hello"), Some(vec![1, 5]));
    t.with_post_processor(Some(template("$A $A")));
    assert_eq!(encode(&t, "hello"), Some(vec![1, 5, 5]));
    t.with_post_processor(Some(template("$A $B")));
    assert_eq!(encode(&t, "hello"), None);
    t.with_post_processor(Some(Joins::new(vec![template("$A").into()])));
    assert_eq!(encode(&t, "hello"), Some(vec![1, 5]));
    let two = vec![template("Bq\"q $A").into(), template("$A $A").into()];
    t.with_post_processor(Some(Joins::new(two)));
    assert_eq!(encode(&t, "hello"), Some(vec![1, 5, 5]));
    // two runs go by the template for pairs
    let two = vec![template("$A $A").into(), template("$A").into()];
    t.with_post_processor(Some(Joins::new(two)));
    assert_eq!(encode(&t, "hello"), Some(vec![1, 5, 5]));
    let two = vec![template("$A $A $A").into(), template("$A").into()];
    t.with_post_processor(Some(Joins::new(two)));
    assert_eq!(encode(&t, "hello"), None);
}

#[test]
fn decoders_run_on_the_tokens_they_can_take() {
    let mut t = Tokenizer::new(words(&[("[UNK]", 0), ("hello", 5), ("world", 9), ("ooo", 12)]));
    t.with_decoder(Some(Strip::new('h', 1, 0)));
    assert_eq!(decode(&t, &[5]), Some("ello".to_string()));
    // a token of nothing else is too short for more
    t.with_decoder(Some(Strip::new('o', 0, 9)));
    assert_eq!(decode(&t, &[5]), Some("hell".to_string()));
    assert_eq!(decode(&t, &[12]), None);
    t.with_decoder(Some(Strip::new('o', 1, 2)));
    assert_eq!(decode(&t, &[12]), Some(String::new()));
    t.with_decoder(Some(Strip::new('o', 2, 2)));
    assert_eq!(decode(&t, &[12]), None);
    t.with_decoder(Some(Strip::new('o', 9, 0)));
    assert_eq!(decode(&t, &[12]), Some(String::new()));
    t.with_decoder(Some(BPEDecoder::default()));
    assert_eq!(decode(&t, &[5]), Some("hello".to_string()));
    assert_eq!(decode(&t, &[]), None);
    assert_eq!(decode(&t, &[77]), None);
    assert!(!can_decode(&t, &[77]));
    let run = vec![CTC::new("ooo".into(), "|".into(), true).into(), BPEDecoder::default().into()];
    t.with_decoder(Some(Decodings::new(run)));
    assert_eq!(decode(&t, &[5]), Some("hello".to_string()));
    assert_eq!(decode(&t, &[12]), None);
    let run = vec![Fuse::new().into(), BPEDecoder::default().into()];
    t.with_decoder(Some(Decodings::new(run)));
    assert_eq!(decode(&t, &[]), Some(String::new()));
    assert_eq!(decode(&t, &[5, 9]), Some("helloworld".to_string()));
    let swap = |p: &str| Replace::new(ReplacePattern::Regex(p.into()), "-").unwrap();
    t.with_decoder(Some(swap("l+")));
    assert_eq!(decode(&t, &[5]), Some("he-o".to_string()));
    t.with_decoder(Some(swap(r"(?=l\K)")));
    assert_eq!(decode(&t, &[5]), None);
}

#[test]
fn special_tokens_are_not_shown() {
    let mut t = word_tokenizer();
    t.add_special_tokens(&[AddedToken::from("hello", true)]);
    assert_eq!(decode(&t, &[5, 9]), Some("world".to_string()));
    t.with_decoder(Some(BPEDecoder::default()));
    assert_eq!(decode(&t, &[5]), None);
    assert_eq!(decode(&t, &[5, 9]), Some("world".to_string()));
}

// --- work on the device ---------------------------------------------------

#[test]
fn test_pipeline_token() {
    let mut counter = PipelineDepth { in_flight: 0 };
    let t1 = PipelineToken::acquire(&mut counter, 2).unwrap();
    assert_eq!(counter.in_flight, 1);
    let t2 = PipelineToken::acquire(&mut counter, 2).unwrap();
    assert_eq!(counter.in_flight, 2);
    let t3 = PipelineToken::acquire(&mut counter, 2);
    assert!(t3.is_none());
    t2.release(&mut counter);
    assert_eq!(counter.in_flight, 1);
    t1.release(&mut counter);
    assert_eq!(counter.in_flight, 0);
    assert_eq!(next_depth(0, 0), None);
    assert_eq!(next_depth(4, 5), Some(5));
}

#[test]
fn the_window_is_a_ring() {
    let slots: Vec<usize> = (7..11).map(|p| window_slot(p, 4)).collect();
    assert_eq!(slots, vec![3, 0, 1, 2]);
    assert_eq!(window_length(true, 3, 4), Some(3));
    assert_eq!(window_length(true, 9, 4), Some(4));
    assert_eq!(window_length(true, 0, 4), None);
    assert_eq!(window_length(false, 3, 4), None);
    // the last positions are there, each at its place
    let mut ring = vec![None; 4];
    for p in 0..11 {
        ring[window_slot(p, 4)] = Some(p);
    }
    assert_eq!(ring, vec![Some(8), Some(9), Some(10), Some(7)]);
}

#[test]
fn values_are_copied_behind_keys() {
    assert_eq!(kv_step(None, None), KvStep::CopyKeys);
    assert_eq!(kv_step(Some(false), None), KvStep::Done(false));
    assert_eq!(kv_step(Some(true), None), KvStep::CopyValues);
    assert_eq!(kv_step(Some(true), Some(false)), KvStep::Done(false));
    assert_eq!(kv_step(Some(true), Some(true)), KvStep::Done(true));
}

#[test]
fn attention_is_launched_by_a_graph_where_it_can() {
    let mut c = GraphCache::new(8);
    assert_eq!(c.launch(4), Launch::AllocScores);
    assert_eq!(c.after(4, Launch::AllocScores, false), Launch::Done(false));
    assert_eq!(c.after(4, Launch::AllocScores, true), Launch::Create);
    assert_eq!(c.after(4, Launch::Create, false), Launch::Stream);
    assert_eq!(c.after(4, Launch::Create, true), Launch::Replay);
    assert_eq!(c.launch(4), Launch::Replay);
    assert_eq!(c.after(4, Launch::Replay, false), Launch::Stream);
    assert_eq!(c.after(4, Launch::Replay, true), Launch::Done(true));
    assert_eq!(c.after(4, Launch::Stream, false), Launch::Done(false));
    assert_eq!(c.launch(9), Launch::Stream);
    assert_eq!(c.launch(0), Launch::Stream);
    assert_eq!(c.launch(8), Launch::Create);
}

#[test]
fn products_fall_back_to_single_steps() {
    let mut g = GemvGraphs::new(0);
    assert_eq!(g.recorded.len(), 1);
    assert_eq!(g.start(0, false), GemvStart::Fail);
    assert_eq!(g.start(0, true), GemvStart::Create);
    assert_eq!(g.created(0, false), GemvStart::Steps);
    assert_eq!(g.created(0, true), GemvStart::Replay);
    assert_eq!(g.start(0, true), GemvStart::Replay);
    assert_eq!(
        gemv_fallback(&vec![3, 5], 2),
        vec![
            GemvOp::CopyIn { bytes: 2048 },
            GemvOp::Multiply { matrix: 0, rows: 3, blocks: 2 },
            GemvOp::CopyOut { matrix: 0, bytes: 12 },
            GemvOp::Multiply { matrix: 1, rows: 5, blocks: 2 },
            GemvOp::CopyOut { matrix: 1, bytes: 20 },
        ]
    );
}

// --- calibration ----------------------------------------------------------

fn layout() -> RingLayout {
    RingLayout {
        q_off: 0,
        k_off: 288,
        v_off: 432,
        o_off: 576,
        gate_off: 720,
        up_off: 864,
        down_off: 1008,
        len: 1440,
        q_nr: 2,
        k_nr: 1,
        v_nr: 1,
        o_nr: 1,
        gate_nr: 1,
        up_nr: 1,
        down_nr: 1,
        down_nc: 800,
    }
}

#[test]
fn blocks_at_work_are_calibrated() {
    let mut q = QatCalibrator::new(&vec![layout()], 1, 256);
    assert_eq!((q.n_blocks_embed, q.n_blocks_ffn), (1, 3));
    let sizes: Vec<usize> = q.layer_stats[0].iter().map(|s| s.len()).collect();
    assert_eq!(sizes, vec![2, 1, 1, 1, 1, 1, 3]);
    assert_eq!(q.record_activation(0, QatCalibrator::T_Q, 1, 300), Some(256));
    assert_eq!(q.record_activation(0, QatCalibrator::T_DOWN, 2, 10), Some(10));
    assert_eq!(q.record_activation(0, 7, 0, 10), None);
    assert_eq!(q.record_activation(1, 0, 0, 10), None);
    assert_eq!(q.record_activation(0, QatCalibrator::T_K, 1, 10), None);
    let spans = layout().spans(1, 3);
    assert_eq!(spans[6], Span { start: 1008, end: 1440, rows: 1, blocks: 3 });
    assert_eq!(
        q.block_jobs(0, QatCalibrator::T_Q, spans[0], 256),
        vec![BlockJob { index: 1, at: 144, first_weight: 256 }]
    );
    assert_eq!(
        q.block_jobs(0, QatCalibrator::T_DOWN, spans[6], 800),
        vec![BlockJob { index: 2, at: 1296, first_weight: 512 }]
    );
    assert!(q.block_jobs(0, QatCalibrator::T_K, spans[1], 256).is_empty());
    assert_eq!(QatCalibrator::block_idx(3, 2, 5), 17);
    assert_eq!(QatCalibrator::tensor_gguf_name(3, QatCalibrator::T_O), "blk.3.attn_output.weight");
    // layers without counts, and matrices that are not given, are left alone
    let given: Vec<String> = [
        "blk.1.attn_q.weight",
        "blk.0.ffn_down.weight",
        "blk.0.attn_k.weight",
        "other",
    ]
    .iter()
    .map(|s| s.to_string())
    .collect();
    let (k, down) = (QatCalibrator::T_K, QatCalibrator::T_DOWN);
    assert_eq!(q.targets(5, &given), vec![(0, k), (0, down)]);
    assert!(q.targets(0, &given).is_empty());
    assert!(q.targets(5, &Vec::new()).is_empty());
    let none = QatCalibrator::new_with_layers(&vec![layout()], 1, 512, 0);
    assert!(none.layer_stats.is_empty());
    assert_eq!((none.n_blocks_embed, none.n_blocks_ffn), (2, 1));
}

#[test]
fn new_scales_are_written_once() {
    let mut ring = vec![7u8; 200];
    assert!(apply_block(&mut ring, 50, 0x3C00, 0x0102));
    assert_eq!(ring[49..55].to_vec(), vec![7, 0x00, 0x3C, 0x02, 0x01, 7]);
    assert!(!apply_block(&mut ring, 50, 0x3C00, 0x0102));
    // a signalling pattern counts as its quiet one
    ring[50] = 0x01;
    ring[51] = 0x7C;
    assert!(!apply_block(&mut ring, 50, 0x7E01, 0x0102));
    assert!(apply_block(&mut ring, 50, 0x7C00, 0x0102));
}

#[test]
fn changed_blocks_are_counted() {
    let mut ring = vec![0u8; 432];
    let news = vec![
        Rescale { at: 0, d: 0, dmin: 0 },
        Rescale { at: 144, d: 0x3C00, dmin: 0 },
        Rescale { at: 288, d: 0, dmin: 1 },
    ];
    assert_eq!(apply_all(&mut ring, &news), 2);
    assert_eq!((ring[145], ring[290]), (0x3C, 1));
    assert_eq!(apply_all(&mut ring, &news), 0);
}
