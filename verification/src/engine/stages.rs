//! The stages by which a loaded tokenizer makes tokens of a text, and which of them run on every
//! text.

use crate::engine::charsmap::decode64;
use crate::engine::charsmap::decoded64;
use crate::engine::charsmap::is_table_whole;
use crate::engine::charsmap::table_whole;
use crate::text::find_first;
use crate::text::is_space;
use crate::text::occurs_at;
use crate::text::same_text;
use crate::text::space;
use tokenizers::normalizers::Precompiled;
use tokenizers::normalizers::Replace;
use tokenizers::processors::template::TemplateProcessing;
use tokenizers::NormalizedString;
use tokenizers::Normalizer;
use tokenizers::NormalizerWrapper;
use tokenizers::PaddingStrategy;
use tokenizers::PostProcessorWrapper;
use tokenizers::PreTokenizerWrapper;
use tokenizers::Tokenizer;
use vstd::prelude::*;

verus! {

/// A loaded tokenizer.
#[verifier::external_type_specification]
#[verifier::external_body]
pub struct ExTokenizer(Tokenizer);

/// The stage that rewrites a text before it is split.
#[verifier::external_type_specification]
#[verifier::external_body]
pub struct ExNormalizerWrapper(NormalizerWrapper);

/// A replacement of one pattern.
#[verifier::external_type_specification]
#[verifier::external_body]
pub struct ExReplace(Replace);

/// A replacement of characters by a table.
#[verifier::external_type_specification]
#[verifier::external_body]
pub struct ExPrecompiled(Precompiled);

/// The stage that splits a text before the vocabulary is asked.
#[verifier::external_type_specification]
#[verifier::external_body]
pub struct ExPreTokenizerWrapper(PreTokenizerWrapper);

/// The stage that puts the tokens of texts together.
#[verifier::external_type_specification]
#[verifier::external_body]
pub struct ExPostProcessorWrapper(PostProcessorWrapper);

/// A template by which tokens of texts are put together.
#[verifier::external_type_specification]
#[verifier::external_body]
pub struct ExTemplateProcessing(TemplateProcessing);

/// How deep stages may be nested.
pub const STAGE_DEPTH: usize = 128;

/// How long a text of tokens may be made by padding.
pub const PADDING_MOST: usize = 0x100_0000;

/// What a rewriting stage is; `Prepend` with what it puts in front.
pub enum Rewriter<S, C, R, T> {
    Bert,
    Strip,
    StripAccents,
    Nfc,
    Nfd,
    Nfkc,
    Nfkd,
    Sequence(S),
    Lowercase,
    Nmt,
    Precompiled(C),
    Replace(R),
    Prepend(T),
    ByteLevel,
}

/// What a splitting stage is; `Split` as it writes its pattern, `FixedLength` with the length
/// of its pieces.
pub enum Splitter<S, T> {
    Bert,
    ByteLevel,
    Delimiter,
    Metaspace,
    Whitespace,
    Sequence(S),
    Split(T),
    Punctuation,
    WhitespaceSplit,
    Digits,
    UnicodeScripts,
    FixedLength(usize),
}

/// What a joining stage is.
pub enum Joiner<T, S> {
    Roberta,
    Bert,
    ByteLevel,
    Template(T),
    Sequence(S),
}

/// How an added token is found in a text: whether it takes in the white space on its left and
/// on its right.
#[derive(Clone, Copy)]
pub struct AddedFlags {
    pub lstrip: bool,
    pub rstrip: bool,
}

/// The limit and the overlap that `Tokenizer::get_truncation` gives.
pub uninterp spec fn truncation_of(tokenizer: Tokenizer) -> Option<(usize, usize)>;

/// The fixed length, if there is one, and the multiple that `Tokenizer::get_padding` gives.
pub uninterp spec fn padding_of(tokenizer: Tokenizer) -> Option<(Option<usize>, Option<usize>)>;

/// The stage that `Tokenizer::get_normalizer` gives.
pub uninterp spec fn normalizer_of(tokenizer: Tokenizer) -> Option<NormalizerWrapper>;

/// The stage that `Tokenizer::get_pre_tokenizer` gives.
pub uninterp spec fn pre_tokenizer_of(tokenizer: Tokenizer) -> Option<PreTokenizerWrapper>;

/// The stage that `Tokenizer::get_post_processor` gives.
pub uninterp spec fn post_processor_of(tokenizer: Tokenizer) -> Option<PostProcessorWrapper>;

/// How the tokens that `Tokenizer::get_added_tokens_decoder` gives are found.
pub uninterp spec fn added_to(tokenizer: Tokenizer) -> Set<AddedFlags>;

/// The texts of `AddedVocabulary::get_vocab` of a tokenizer.
pub uninterp spec fn added_texts(tokenizer: Tokenizer) -> Set<Seq<char>>;

/// What `Normalizer::normalize` of a stage makes of a text.
pub uninterp spec fn normalized(stage: NormalizerWrapper, text: Seq<char>) -> Option<Seq<char>>;

/// Which variant of `NormalizerWrapper` a stage is.
pub uninterp spec fn rewriter_of(stage: NormalizerWrapper) -> Rewriter<
    Seq<NormalizerWrapper>,
    Precompiled,
    Replace,
    Seq<char>,
>;

/// Which variant of `PreTokenizerWrapper` a stage is.
pub uninterp spec fn splitter_of(stage: PreTokenizerWrapper) -> Splitter<
    Seq<PreTokenizerWrapper>,
    Seq<char>,
>;

/// Which variant of `PostProcessorWrapper` a stage is.
pub uninterp spec fn joiner_of(stage: PostProcessorWrapper) -> Joiner<
    TemplateProcessing,
    Seq<PostProcessorWrapper>,
>;

/// How `Debug` writes the template that `TemplateProcessing::get_pair` gives.
pub uninterp spec fn pair_text(template: TemplateProcessing) -> Seq<char>;

/// How `Debug` writes a `Replace`.
pub uninterp spec fn replace_text(stage: Replace) -> Seq<char>;

/// The table of a `Precompiled` in base 64, as it is serialised.
pub uninterp spec fn table_text(stage: Precompiled) -> Option<Seq<u8>>;

/// The text that `TemplateProcessing::get_single` gives.
pub uninterp spec fn template_text(template: TemplateProcessing) -> Seq<char>;

/// What a rewriting stage is, its parts as sequences.
pub open spec fn rewriter_view(k: Rewriter<&[NormalizerWrapper], &Precompiled, &Replace, &str>) -> Rewriter<
    Seq<NormalizerWrapper>,
    Precompiled,
    Replace,
    Seq<char>,
> {
    match k {
        Rewriter::Bert => Rewriter::Bert,
        Rewriter::Strip => Rewriter::Strip,
        Rewriter::StripAccents => Rewriter::StripAccents,
        Rewriter::Nfc => Rewriter::Nfc,
        Rewriter::Nfd => Rewriter::Nfd,
        Rewriter::Nfkc => Rewriter::Nfkc,
        Rewriter::Nfkd => Rewriter::Nfkd,
        Rewriter::Sequence(s) => Rewriter::Sequence(s@),
        Rewriter::Lowercase => Rewriter::Lowercase,
        Rewriter::Nmt => Rewriter::Nmt,
        Rewriter::Precompiled(p) => Rewriter::Precompiled(*p),
        Rewriter::Replace(r) => Rewriter::Replace(*r),
        Rewriter::Prepend(t) => Rewriter::Prepend(t@),
        Rewriter::ByteLevel => Rewriter::ByteLevel,
    }
}

/// What a splitting stage is, its parts as sequences.
pub open spec fn splitter_view(k: Splitter<&[PreTokenizerWrapper], String>) -> Splitter<
    Seq<PreTokenizerWrapper>,
    Seq<char>,
> {
    match k {
        Splitter::Bert => Splitter::Bert,
        Splitter::ByteLevel => Splitter::ByteLevel,
        Splitter::Delimiter => Splitter::Delimiter,
        Splitter::Metaspace => Splitter::Metaspace,
        Splitter::Whitespace => Splitter::Whitespace,
        Splitter::Sequence(s) => Splitter::Sequence(s@),
        Splitter::Split(t) => Splitter::Split(t@),
        Splitter::Punctuation => Splitter::Punctuation,
        Splitter::WhitespaceSplit => Splitter::WhitespaceSplit,
        Splitter::Digits => Splitter::Digits,
        Splitter::UnicodeScripts => Splitter::UnicodeScripts,
        Splitter::FixedLength(n) => Splitter::FixedLength(n),
    }
}

/// What a joining stage is, its parts as sequences.
pub open spec fn joiner_view(k: Joiner<&TemplateProcessing, &[PostProcessorWrapper]>) -> Joiner<
    TemplateProcessing,
    Seq<PostProcessorWrapper>,
> {
    match k {
        Joiner::Roberta => Joiner::Roberta,
        Joiner::Bert => Joiner::Bert,
        Joiner::ByteLevel => Joiner::ByteLevel,
        Joiner::Template(t) => Joiner::Template(*t),
        Joiner::Sequence(s) => Joiner::Sequence(s@),
    }
}

/// `Tokenizer::get_truncation`, of which `max_length` and `stride`.
#[verifier::external_body]
fn tokenizer_truncation(tokenizer: &Tokenizer) -> (r: Option<(usize, usize)>)
    ensures
        r == truncation_of(*tokenizer),
{
    tokenizer.get_truncation().map(|t| (t.max_length, t.stride))
}

/// `Tokenizer::get_padding`, of which the length of a fixed `strategy` and
/// `pad_to_multiple_of`.
#[verifier::external_body]
fn tokenizer_padding(tokenizer: &Tokenizer) -> (r: Option<(Option<usize>, Option<usize>)>)
    ensures
        r == padding_of(*tokenizer),
{
    match tokenizer.get_padding() {
        Some(p) => match p.strategy {
            PaddingStrategy::BatchLongest => Some((None, p.pad_to_multiple_of)),
            PaddingStrategy::Fixed(n) => Some((Some(n), p.pad_to_multiple_of)),
        },
        None => None,
    }
}

/// `Tokenizer::get_added_tokens_decoder`, of each token how it is found. The order in which
/// they come is open.
#[verifier::external_body]
fn tokenizer_added(tokenizer: &Tokenizer) -> (r: Vec<AddedFlags>)
    ensures
        r@.to_set() == added_to(*tokenizer),
{
    let tokens = tokenizer.get_added_tokens_decoder();
    tokens.into_values().map(|t| AddedFlags { lstrip: t.lstrip, rstrip: t.rstrip }).collect()
}

/// `AddedVocabulary::get_vocab` of the tokenizer's added vocabulary, of which the texts: those
/// of all tokens that were ever added. The order in which they come is open.
#[verifier::external_body]
fn tokenizer_added_texts(tokenizer: &Tokenizer) -> (r: Vec<String>)
    ensures
        r@.map_values(|s: String| s@).to_set() == added_texts(*tokenizer),
{
    tokenizer.get_added_vocabulary().get_vocab().keys().cloned().collect()
}

/// `Normalizer::normalize` of a stage; nothing where it fails. A stage that cannot run on every
/// text is left out.
#[verifier::external_body]
fn normalizer_run(stage: &NormalizerWrapper, text: &str) -> (r: Option<String>)
    requires
        rewrites(*stage, false, STAGE_DEPTH as nat) is Some,
    ensures
        normalized(*stage, text@) == (match r {
            Some(s) => Some(s@),
            None => None,
        }),
{
    let mut given = NormalizedString::from(text);
    stage.normalize(&mut given).ok()?;
    Some(given.get().to_owned())
}

/// `Tokenizer::get_normalizer`: the stage that was loaded.
#[verifier::external_body]
fn tokenizer_normalizer(tokenizer: &Tokenizer) -> (r: Option<&NormalizerWrapper>)
    ensures
        normalizer_of(*tokenizer) == (match r {
            Some(stage) => Some(*stage),
            None => None,
        }),
{
    tokenizer.get_normalizer()
}

/// `Tokenizer::get_pre_tokenizer`: the stage that was loaded.
#[verifier::external_body]
fn tokenizer_pre_tokenizer(tokenizer: &Tokenizer) -> (r: Option<&PreTokenizerWrapper>)
    ensures
        pre_tokenizer_of(*tokenizer) == (match r {
            Some(stage) => Some(*stage),
            None => None,
        }),
{
    tokenizer.get_pre_tokenizer()
}

/// `Tokenizer::get_post_processor`: the stage that was loaded.
#[verifier::external_body]
fn tokenizer_post_processor(tokenizer: &Tokenizer) -> (r: Option<&PostProcessorWrapper>)
    ensures
        post_processor_of(*tokenizer) == (match r {
            Some(stage) => Some(*stage),
            None => None,
        }),
{
    tokenizer.get_post_processor()
}

/// Which variant of `NormalizerWrapper` a stage is, with `Sequence::as_ref` and
/// `Prepend::prepend`.
#[verifier::external_body]
fn normalizer_kind(stage: &NormalizerWrapper) -> (r: Rewriter<&[NormalizerWrapper], &Precompiled, &Replace, &str>)
    ensures
        rewriter_view(r) == rewriter_of(*stage),
{
    match stage {
        NormalizerWrapper::BertNormalizer(_) => Rewriter::Bert,
        NormalizerWrapper::StripNormalizer(_) => Rewriter::Strip,
        NormalizerWrapper::StripAccents(_) => Rewriter::StripAccents,
        NormalizerWrapper::NFC(_) => Rewriter::Nfc, NormalizerWrapper::NFD(_) => Rewriter::Nfd,
        NormalizerWrapper::NFKC(_) => Rewriter::Nfkc,
        NormalizerWrapper::NFKD(_) => Rewriter::Nfkd,
        NormalizerWrapper::Sequence(s) => Rewriter::Sequence(s.as_ref()),
        NormalizerWrapper::Lowercase(_) => Rewriter::Lowercase,
        NormalizerWrapper::Nmt(_) => Rewriter::Nmt,
        NormalizerWrapper::Precompiled(p) => Rewriter::Precompiled(p),
        NormalizerWrapper::Replace(r) => Rewriter::Replace(r),
        NormalizerWrapper::Prepend(p) => Rewriter::Prepend(&p.prepend),
        NormalizerWrapper::ByteLevel(_) => Rewriter::ByteLevel,
    }
}

/// Which variant of `PreTokenizerWrapper` a stage is, with `Sequence::as_ref`,
/// `Split::pattern` as `Debug` writes it and `FixedLength::length`.
#[verifier::external_body]
fn pre_tokenizer_kind(stage: &PreTokenizerWrapper) -> (r: Splitter<&[PreTokenizerWrapper], String>)
    ensures
        splitter_view(r) == splitter_of(*stage),
{
    match stage {
        PreTokenizerWrapper::BertPreTokenizer(_) => Splitter::Bert,
        PreTokenizerWrapper::ByteLevel(_) => Splitter::ByteLevel,
        PreTokenizerWrapper::Delimiter(_) => Splitter::Delimiter,
        PreTokenizerWrapper::Metaspace(_) => Splitter::Metaspace,
        PreTokenizerWrapper::Whitespace(_) => Splitter::Whitespace,
        PreTokenizerWrapper::Sequence(s) => Splitter::Sequence(s.as_ref()),
        PreTokenizerWrapper::Split(s) => Splitter::Split(format!("{:?}", s.pattern)),
        PreTokenizerWrapper::Punctuation(_) => Splitter::Punctuation,
        PreTokenizerWrapper::WhitespaceSplit(_) => Splitter::WhitespaceSplit,
        PreTokenizerWrapper::Digits(_) => Splitter::Digits,
        PreTokenizerWrapper::UnicodeScripts(_) => Splitter::UnicodeScripts,
        PreTokenizerWrapper::FixedLength(f) => Splitter::FixedLength(f.length),
    }
}

/// Which variant of `PostProcessorWrapper` a stage is, with `Sequence::as_ref` and the
/// template.
#[verifier::external_body]
fn post_processor_kind(stage: &PostProcessorWrapper) -> (r: Joiner<&TemplateProcessing, &[PostProcessorWrapper]>)
    ensures
        joiner_view(r) == joiner_of(*stage),
{
    match stage {
        PostProcessorWrapper::Roberta(_) => Joiner::Roberta,
        PostProcessorWrapper::Bert(_) => Joiner::Bert,
        PostProcessorWrapper::ByteLevel(_) => Joiner::ByteLevel,
        PostProcessorWrapper::Template(t) => Joiner::Template(t),
        PostProcessorWrapper::Sequence(s) => Joiner::Sequence(s.as_ref()),
    }
}

/// `Debug` of `Replace`: the kind of its pattern, the pattern and what is put in.
#[verifier::external_body]
pub(crate) fn replace_debug(stage: &Replace) -> (r: String)
    ensures
        r@ == replace_text(*stage),
{
    format!("{:?}", stage)
}

/// `serde_json::to_value` of `Precompiled`, of which the text `precompiled_charsmap`: the table
/// in base 64.
#[verifier::external_body]
fn precompiled_table(stage: &Precompiled) -> (r: Option<Vec<u8>>)
    ensures
        table_text(*stage) == (match r {
            Some(v) => Some(v@),
            None => None,
        }),
{
    let value = serde_json::to_value(stage).ok()?;
    Some(value.get("precompiled_charsmap")?.as_str()?.as_bytes().to_vec())
}

/// `TemplateProcessing::get_single`: the template for one text, as `Debug` writes it.
#[verifier::external_body]
fn template_single(template: &TemplateProcessing) -> (r: String)
    ensures
        r@ == template_text(*template),
{
    template.get_single()
}

/// `TemplateProcessing::get_pair`: the template for two texts, as `Debug` writes it.
#[verifier::external_body]
fn template_pair(template: &TemplateProcessing) -> (r: String)
    ensures
        r@ == pair_text(*template),
{
    format!("{:?}", template.get_pair())
}

/// Whether a text begins with another.
fn begins(text: &str, with: &str) -> (r: bool)
    ensures
        r == occurs_at(text@, with@, 0),
{
    let n = text.unicode_len();
    let m = with.unicode_len();
    m <= n && same_text(text.substring_char(0, m), with)
}

/// Whether a pattern can move the begin of its match by the escape `\K`, out of order.
pub open spec fn moves_match(text: Seq<char>) -> bool {
    exists|i: int| occurs_at(text, "\\K"@, i)
}

/// Whether a pattern can move the begin of its match.
pub(crate) fn can_move_match(text: &str) -> (r: bool)
    ensures
        r == moves_match(text@),
{
    match find_first(text, "\\K") {
        Some(i) => {
            assert(occurs_at(text@, "\\K"@, i as int));
            true
        },
        None => false,
    }
}

/// Whether a replacement never matches where there is nothing: its pattern is a plain text,
/// and not an empty one, or one of three expressions for runs of white space and of blanks.
pub open spec fn matches_some(text: Seq<char>) -> bool {
    ||| occurs_at(text, "Replace { pattern: String(\""@, 0) && !occurs_at(
        text,
        "Replace { pattern: String(\"\")"@,
        0,
    )
    ||| occurs_at(text, "Replace { pattern: Regex(\"\\\\s+\"), "@, 0)
    ||| occurs_at(text, "Replace { pattern: Regex(\" +\"), "@, 0)
    ||| occurs_at(text, "Replace { pattern: Regex(\" {2,}\"), "@, 0)
}

fn can_match_some(text: &str) -> (r: bool)
    ensures
        r == matches_some(text@),
{
    begins(text, "Replace { pattern: String(\"") && !begins(
        text,
        "Replace { pattern: String(\"\")",
    ) || begins(text, "Replace { pattern: Regex(\"\\\\s+\"), ") || begins(
        text,
        "Replace { pattern: Regex(\" +\"), ",
    ) || begins(text, "Replace { pattern: Regex(\" {2,}\"), ")
}

// ---------------------------------------------------------------------------
// Rewriting
// ---------------------------------------------------------------------------

/// Whether characters at the front of a text may stand for none of the given text, behind a
/// stage that goes through it from its front. It cannot where there are such characters
/// before it.
pub open spec fn gone_through(fronted: bool) -> Option<bool> {
    if fronted {
        None
    } else {
        Some(false)
    }
}

/// Whether the table of a stage can be read and is whole.
pub open spec fn table_read(stage: Precompiled) -> bool {
    table_text(stage) matches Some(s) && decoded64(s) matches Some(b) && table_whole(b)
}

/// Whether characters at the front of a text may stand for none of the given text behind a
/// rewriting stage, given whether they may before it; nothing where the stage cannot run on
/// every text. A replacement of nothing at the front, and nothing put in front, leave such
/// characters.
pub open spec fn rewrites(stage: NormalizerWrapper, fronted: bool, depth: nat) -> Option<bool>
    decreases depth, 0nat,
{
    match rewriter_of(stage) {
        Rewriter::Precompiled(p) => if table_read(p) {
            gone_through(fronted)
        } else {
            None
        },
        Rewriter::Replace(r) => if moves_match(replace_text(r)) {
            None
        } else {
            Some(fronted || !matches_some(replace_text(r)))
        },
        Rewriter::Prepend(text) => Some(fronted || text.len() == 0),
        Rewriter::Sequence(s) => if depth > 0 {
            rewrites_all(s, fronted, (depth - 1) as nat)
        } else {
            None
        },
        _ => gone_through(fronted),
    }
}

/// Whether characters at the front of a text may stand for none behind rewriting stages one
/// after another.
pub open spec fn rewrites_all(s: Seq<NormalizerWrapper>, fronted: bool, depth: nat) -> Option<
    bool,
>
    decreases depth, s.len(),
{
    if s.len() == 0 {
        Some(fronted)
    } else {
        match rewrites_all(s.drop_last(), fronted, depth) {
            Some(u) => rewrites(s.last(), u, depth),
            None => None,
        }
    }
}

proof fn lemma_rewrites_stop(s: Seq<NormalizerWrapper>, k: int, fronted: bool, depth: nat)
    requires
        0 <= k <= s.len(),
        rewrites_all(s.take(k), fronted, depth) is None,
    ensures
        rewrites_all(s, fronted, depth) is None,
    decreases s.len() - k,
{
    if k == s.len() {
        assert(s.take(k) =~= s);
    } else {
        assert(s.take(k + 1).drop_last() =~= s.take(k));
        lemma_rewrites_stop(s, k + 1, fronted, depth);
    }
}

fn go_through(fronted: bool) -> (r: Option<bool>)
    ensures
        r == gone_through(fronted),
{
    if fronted {
        None
    } else {
        Some(false)
    }
}

fn can_read_table(stage: &Precompiled) -> (r: bool)
    ensures
        r == table_read(*stage),
{
    match precompiled_table(stage) {
        Some(s) => match decode64(&s) {
            Some(b) => is_table_whole(&b),
            None => false,
        },
        None => false,
    }
}

fn can_rewrite(stage: &NormalizerWrapper, fronted: bool, depth: usize) -> (r: Option<bool>)
    ensures
        r == rewrites(*stage, fronted, depth as nat),
    decreases depth,
{
    match normalizer_kind(stage) {
        Rewriter::Precompiled(p) => if can_read_table(p) {
            go_through(fronted)
        } else {
            None
        },
        Rewriter::Replace(r) => {
            let text = replace_debug(r);
            if can_move_match(text.as_str()) {
                return None;
            }
            Some(fronted || !can_match_some(text.as_str()))
        },
        Rewriter::Prepend(text) => Some(fronted || text.unicode_len() == 0),
        Rewriter::Sequence(s) => {
            if depth == 0 {
                return None;
            }
            let mut at: bool = fronted;
            let mut i: usize = 0;
            assert(s@.take(0) =~= Seq::empty());
            while i < s.len()
                invariant
                    i <= s@.len(),
                    depth > 0,
                    rewriter_of(*stage) == Rewriter::<
                        Seq<NormalizerWrapper>,
                        Precompiled,
                        Replace,
                        Seq<char>,
                    >::Sequence(s@),
                    rewrites_all(s@.take(i as int), fronted, (depth - 1) as nat) == Some(at),
                decreases s@.len() - i,
            {
                assert(s@.take(i + 1).drop_last() =~= s@.take(i as int));
                assert(s@.take(i + 1).last() == s@[i as int]);
                match can_rewrite(&s[i], at, depth - 1) {
                    Some(u) => {
                        at = u;
                    },
                    None => {
                        proof {
                            lemma_rewrites_stop(s@, i + 1, fronted, (depth - 1) as nat);
                        }
                        return None;
                    },
                }
                i += 1;
            }
            assert(s@.take(i as int) =~= s@);
            Some(at)
        },
        _ => go_through(fronted),
    }
}

/// Whether characters at the front of a text may stand for none behind the rewriting stage of a
/// tokenizer; nothing where the stage cannot run on every text.
pub open spec fn rewritten_by(tokenizer: Tokenizer) -> Option<bool> {
    match normalizer_of(tokenizer) {
        Some(stage) => rewrites(stage, false, STAGE_DEPTH as nat),
        None => Some(false),
    }
}

/// Whether characters at the front of a text may stand for none behind the rewriting stage of a
/// tokenizer.
pub fn find_rewritten(tokenizer: &Tokenizer) -> (r: Option<bool>)
    ensures
        r == rewritten_by(*tokenizer),
{
    match tokenizer_normalizer(tokenizer) {
        Some(stage) => can_rewrite(stage, false, STAGE_DEPTH),
        None => Some(false),
    }
}

// ---------------------------------------------------------------------------
// Splitting
// ---------------------------------------------------------------------------

/// Whether a splitting stage can run on every text, given whether characters at its front may
/// stand for none.
pub open spec fn splits(stage: PreTokenizerWrapper, fronted: bool, depth: nat) -> bool
    decreases depth, 0nat,
{
    match splitter_of(stage) {
        Splitter::ByteLevel => !fronted,
        Splitter::Split(pattern) => !moves_match(pattern),
        Splitter::FixedLength(n) => n != 0,
        Splitter::Sequence(s) => depth > 0 && splits_all(s, fronted, (depth - 1) as nat),
        _ => true,
    }
}

/// Whether splitting stages can run on every text.
pub open spec fn splits_all(s: Seq<PreTokenizerWrapper>, fronted: bool, depth: nat) -> bool
    decreases depth, s.len(),
{
    s.len() > 0 ==> splits_all(s.drop_last(), fronted, depth) && splits(s.last(), fronted, depth)
}

proof fn lemma_splits_stop(s: Seq<PreTokenizerWrapper>, k: int, fronted: bool, depth: nat)
    requires
        0 <= k <= s.len(),
        !splits_all(s.take(k), fronted, depth),
    ensures
        !splits_all(s, fronted, depth),
    decreases s.len() - k,
{
    if k == s.len() {
        assert(s.take(k) =~= s);
    } else {
        assert(s.take(k + 1).drop_last() =~= s.take(k));
        lemma_splits_stop(s, k + 1, fronted, depth);
    }
}

fn can_split(stage: &PreTokenizerWrapper, fronted: bool, depth: usize) -> (r: bool)
    ensures
        r == splits(*stage, fronted, depth as nat),
    decreases depth,
{
    match pre_tokenizer_kind(stage) {
        Splitter::ByteLevel => !fronted,
        Splitter::Split(pattern) => !can_move_match(pattern.as_str()),
        Splitter::FixedLength(n) => n != 0,
        Splitter::Sequence(s) => {
            if depth == 0 {
                return false;
            }
            let mut i: usize = 0;
            while i < s.len()
                invariant
                    i <= s@.len(),
                    depth > 0,
                    splitter_of(*stage) == Splitter::<
                        Seq<PreTokenizerWrapper>,
                        Seq<char>,
                    >::Sequence(s@),
                    splits_all(s@.take(i as int), fronted, (depth - 1) as nat),
                decreases s@.len() - i,
            {
                assert(s@.take(i + 1).drop_last() =~= s@.take(i as int));
                assert(s@.take(i + 1).last() == s@[i as int]);
                if !can_split(&s[i], fronted, depth - 1) {
                    proof {
                        lemma_splits_stop(s@, i + 1, fronted, (depth - 1) as nat);
                    }
                    return false;
                }
                i += 1;
            }
            assert(s@.take(i as int) =~= s@);
            true
        },
        _ => true,
    }
}

// ---------------------------------------------------------------------------
// Joining
// ---------------------------------------------------------------------------

/// What was read of a template: the places for a text, whether one of them is for a second
/// text, and whether the reading stands in quotes and behind a backslash there.
pub struct Places {
    pub count: nat,
    pub second: bool,
    pub quoted: bool,
    pub escaped: bool,
}

/// What a template as `Debug` writes it holds. Outside quotes a `q` stands in the word
/// `Sequence` alone, which is a place for a text, and a `B` in a place for a second text
/// alone.
pub open spec fn places(text: Seq<char>) -> Places
    decreases text.len(),
{
    if text.len() == 0 {
        Places { count: 0, second: false, quoted: false, escaped: false }
    } else {
        let p = places(text.drop_last());
        let c = text.last();
        if p.quoted {
            Places {
                quoted: p.escaped || c != '"',
                escaped: !p.escaped && c == '\\',
                ..p
            }
        } else {
            Places {
                count: p.count + if c == 'q' {
                    1nat
                } else {
                    0
                },
                second: p.second || c == 'B',
                quoted: c == '"',
                ..p
            }
        }
    }
}

fn find_places(text: &str) -> (r: (usize, bool))
    ensures
        r.0 == places(text@).count,
        r.1 == places(text@).second,
{
    let n = text.unicode_len();
    let mut count: usize = 0;
    let mut second: bool = false;
    let mut quoted: bool = false;
    let mut escaped: bool = false;
    let mut i: usize = 0;
    assert(text@.take(0) =~= Seq::empty());
    while i < n
        invariant
            n == text@.len(),
            i <= n,
            count <= i,
            places(text@.take(i as int)) == (Places { count: count as nat, second, quoted, escaped }),
            !quoted ==> !escaped,
        decreases n - i,
    {
        assert(text@.take(i + 1).drop_last() =~= text@.take(i as int));
        let c = text.get_char(i);
        if quoted {
            let was: bool = escaped;
            escaped = !was && c == '\\';
            quoted = was || c != '"';
        } else {
            if c == 'q' {
                count += 1;
            }
            second = second || c == 'B';
            quoted = c == '"';
        }
        i += 1;
    }
    assert(text@.take(i as int) =~= text@);
    (count, second)
}

/// How many runs of tokens there are behind a joining stage, given how many there are before it;
/// nothing where it cannot run. A template takes one run, and then has no place for a second
/// text, or two; it gives as many as it has places.
pub open spec fn joins(stage: PostProcessorWrapper, runs: nat, depth: nat) -> Option<nat>
    decreases depth, 0nat,
{
    match joiner_of(stage) {
        Joiner::Template(t) => {
            let p = places(template_text(t));
            if runs == 1 && !p.second {
                Some(p.count)
            } else if runs == 2 {
                Some(places(pair_text(t)).count)
            } else {
                None
            }
        },
        Joiner::Sequence(s) => if depth > 0 {
            joins_all(s, runs, (depth - 1) as nat)
        } else {
            None
        },
        _ => Some(runs),
    }
}

/// How many runs of tokens there are behind joining stages one after another.
pub open spec fn joins_all(s: Seq<PostProcessorWrapper>, runs: nat, depth: nat) -> Option<nat>
    decreases depth, s.len(),
{
    if s.len() == 0 {
        Some(runs)
    } else {
        match joins_all(s.drop_last(), runs, depth) {
            Some(n) => joins(s.last(), n, depth),
            None => None,
        }
    }
}

proof fn lemma_joins_stop(s: Seq<PostProcessorWrapper>, k: int, runs: nat, depth: nat)
    requires
        0 <= k <= s.len(),
        joins_all(s.take(k), runs, depth) is None,
    ensures
        joins_all(s, runs, depth) is None,
    decreases s.len() - k,
{
    if k == s.len() {
        assert(s.take(k) =~= s);
    } else {
        assert(s.take(k + 1).drop_last() =~= s.take(k));
        lemma_joins_stop(s, k + 1, runs, depth);
    }
}

fn can_join(stage: &PostProcessorWrapper, runs: usize, depth: usize) -> (r: Option<usize>)
    ensures
        joins(*stage, runs as nat, depth as nat) == (match r {
            Some(n) => Some(n as nat),
            None => None,
        }),
    decreases depth,
{
    match post_processor_kind(stage) {
        Joiner::Template(t) => {
            let text = template_single(t);
            let (count, second) = find_places(text.as_str());
            if runs == 1 && !second {
                Some(count)
            } else if runs == 2 {
                let pair = template_pair(t);
                let (count, _) = find_places(pair.as_str());
                Some(count)
            } else {
                None
            }
        },
        Joiner::Sequence(s) => {
            if depth == 0 {
                return None;
            }
            let mut at: usize = runs;
            let mut i: usize = 0;
            assert(s@.take(0) =~= Seq::empty());
            while i < s.len()
                invariant
                    i <= s@.len(),
                    depth > 0,
                    joiner_of(*stage) == Joiner::<
                        TemplateProcessing,
                        Seq<PostProcessorWrapper>,
                    >::Sequence(s@),
                    joins_all(s@.take(i as int), runs as nat, (depth - 1) as nat) == Some(
                        at as nat,
                    ),
                decreases s@.len() - i,
            {
                assert(s@.take(i + 1).drop_last() =~= s@.take(i as int));
                assert(s@.take(i + 1).last() == s@[i as int]);
                match can_join(&s[i], at, depth - 1) {
                    Some(n) => {
                        at = n;
                    },
                    None => {
                        proof {
                            lemma_joins_stop(s@, i + 1, runs as nat, (depth - 1) as nat);
                        }
                        return None;
                    },
                }
                i += 1;
            }
            assert(s@.take(i as int) =~= s@);
            Some(at)
        },
        _ => Some(runs),
    }
}

// ---------------------------------------------------------------------------
// All stages
// ---------------------------------------------------------------------------

/// Whether a limit can be kept: it is zero, or the overlap is below it.
pub open spec fn limit_fits(limit: Option<(usize, usize)>) -> bool {
    match limit {
        Some((most, overlap)) => most == 0 || overlap < most,
        None => true,
    }
}

/// Whether a length or a multiple is one that tokens can be padded to.
pub open spec fn length_fits(n: Option<usize>) -> bool {
    n matches Some(x) ==> x <= PADDING_MOST
}

/// Whether tokens can be padded.
pub open spec fn padding_fits(padding: Option<(Option<usize>, Option<usize>)>) -> bool {
    padding matches Some((fixed, multiple)) ==> length_fits(fixed) && length_fits(multiple)
}

/// Whether an added token takes in the white space on its right.
pub open spec fn takes_right(s: Set<AddedFlags>) -> bool {
    exists|a: AddedFlags| #[trigger] s.contains(a) && a.rstrip
}

/// Whether an added token takes in the white space on its left alone.
pub open spec fn takes_left(s: Set<AddedFlags>) -> bool {
    exists|a: AddedFlags| #[trigger] s.contains(a) && a.lstrip && !a.rstrip
}

/// Whether an added token that takes in white space on its left alone stands beside one that
/// takes it in on its right.
pub open spec fn takes_both(s: Set<AddedFlags>) -> bool {
    takes_left(s) && takes_right(s)
}

fn can_take_both(v: &Vec<AddedFlags>) -> (r: bool)
    ensures
        r == takes_both(v@.to_set()),
{
    let mut left: bool = false;
    let mut right: bool = false;
    let ghost s = v@.to_set();
    let mut i: usize = 0;
    while i < v.len()
        invariant
            i <= v@.len(),
            s == v@.to_set(),
            left == exists|k: int| 0 <= k < i && (#[trigger] v@[k]).lstrip && !v@[k].rstrip,
            right == exists|k: int| 0 <= k < i && (#[trigger] v@[k]).rstrip,
        decreases v@.len() - i,
    {
        let a = v[i];
        let ghost at = i as int;
        assert(v@[at] == a);
        left = left || (a.lstrip && !a.rstrip);
        right = right || a.rstrip;
        i += 1;
    }
    proof {
        if left {
            let k = choose|k: int| 0 <= k < i && (#[trigger] v@[k]).lstrip && !v@[k].rstrip;
            assert(s.contains(v@[k]));
        }
        if right {
            let k = choose|k: int| 0 <= k < i && (#[trigger] v@[k]).rstrip;
            assert(s.contains(v@[k]));
        }
        assert forall|a: AddedFlags| #[trigger] s.contains(a) implies exists|k: int|
            0 <= k < v@.len() && #[trigger] v@[k] == a by {
            let k = choose|k: int| 0 <= k < v@.len() && v@[k] == a;
            assert(v@[k] == a);
        }
    }
    left && right
}

/// Whether a text begins with white space.
pub open spec fn spaced(text: Seq<char>) -> bool {
    text.len() > 0 && is_space(text[0])
}

fn is_spaced(text: &str) -> (r: bool)
    ensures
        r == spaced(text@),
{
    text.unicode_len() > 0 && space(text.get_char(0))
}

/// Whether an added token can be looked for under what a stage makes of it: that is something,
/// and, where white space is taken in on both sides, neither it nor the token begins with white
/// space. Nothing would be found everywhere, inside characters too, and white space could be
/// found in what another token took in.
pub open spec fn sought(stage: Option<NormalizerWrapper>, both: bool, text: Seq<char>) -> bool {
    &&& both ==> !spaced(text)
    &&& stage matches Some(n) ==> normalized(n, text) matches Some(s) && s.len() > 0 && (both
        ==> !spaced(s))
}

/// Whether all added tokens of a tokenizer can be looked for in every text.
pub open spec fn finds_added(tokenizer: Tokenizer) -> bool {
    forall|s: Seq<char>| #[trigger]
        added_texts(tokenizer).contains(s) ==> sought(
            normalizer_of(tokenizer),
            takes_both(added_to(tokenizer)),
            s,
        )
}

fn can_seek(stage: Option<&NormalizerWrapper>, both: bool, text: &str) -> (r: bool)
    requires
        stage matches Some(n) ==> rewrites(*n, false, STAGE_DEPTH as nat) is Some,
    ensures
        r == sought(
            match stage {
                Some(n) => Some(*n),
                None => None,
            },
            both,
            text@,
        ),
{
    if both && is_spaced(text) {
        return false;
    }
    match stage {
        Some(n) => match normalizer_run(n, text) {
            Some(s) => s.as_str().unicode_len() > 0 && !(both && is_spaced(s.as_str())),
            None => false,
        },
        None => true,
    }
}

fn can_find_added(tokenizer: &Tokenizer) -> (r: bool)
    requires
        rewritten_by(*tokenizer) is Some,
    ensures
        r == finds_added(*tokenizer),
{
    let both: bool = can_take_both(&tokenizer_added(tokenizer));
    let stage = tokenizer_normalizer(tokenizer);
    let v = tokenizer_added_texts(tokenizer);
    let ghost all = v@.map_values(|s: String| s@);
    let ghost n = normalizer_of(*tokenizer);
    let mut i: usize = 0;
    while i < v.len()
        invariant
            i <= v@.len(),
            all == v@.map_values(|s: String| s@),
            all.to_set() == added_texts(*tokenizer),
            both == takes_both(added_to(*tokenizer)),
            n == normalizer_of(*tokenizer),
            n == (match stage {
                Some(n) => Some(*n),
                None => None,
            }),
            rewritten_by(*tokenizer) is Some,
            forall|k: int| 0 <= k < i ==> sought(n, both, #[trigger] all[k]),
        decreases v@.len() - i,
    {
        if !can_seek(stage, both, v[i].as_str()) {
            assert(!sought(n, both, all[i as int]));
            assert(all.to_set().contains(all[i as int]));
            return false;
        }
        i += 1;
    }
    assert forall|s: Seq<char>| #[trigger] added_texts(*tokenizer).contains(s) implies sought(
        n,
        both,
        s,
    ) by {
        let k = choose|k: int| 0 <= k < all.len() && all[k] == s;
        assert(sought(n, both, all[k]));
    }
    true
}

/// Whether a tokenizer can encode every text: its limit can be kept, tokens can be padded, its
/// stages can run, and its added tokens can be found.
pub open spec fn encodes_all(tokenizer: Tokenizer) -> bool {
    &&& limit_fits(truncation_of(tokenizer))
    &&& padding_fits(padding_of(tokenizer))
    &&& rewritten_by(tokenizer) matches Some(fronted) && {
        &&& finds_added(tokenizer)
        &&& pre_tokenizer_of(tokenizer) matches Some(stage) ==> splits(
            stage,
            fronted,
            STAGE_DEPTH as nat,
        )
    }
    &&& post_processor_of(tokenizer) matches Some(stage) ==> joins(
        stage,
        1,
        STAGE_DEPTH as nat,
    ) is Some
}

/// Whether a tokenizer can encode every text.
pub fn can_encode(tokenizer: &Tokenizer) -> (r: bool)
    ensures
        r == encodes_all(*tokenizer),
{
    match tokenizer_truncation(tokenizer) {
        Some((most, overlap)) => {
            if most != 0 && overlap >= most {
                return false;
            }
        },
        None => {},
    }
    match tokenizer_padding(tokenizer) {
        Some((fixed, multiple)) => {
            let n: usize = match fixed {
                Some(n) => n,
                None => 0,
            };
            let m: usize = match multiple {
                Some(m) => m,
                None => 0,
            };
            if n > PADDING_MOST || m > PADDING_MOST {
                return false;
            }
        },
        None => {},
    }
    let fronted: bool = match find_rewritten(tokenizer) {
        Some(f) => f,
        None => {
            return false;
        },
    };
    if !can_find_added(tokenizer) {
        return false;
    }
    match tokenizer_pre_tokenizer(tokenizer) {
        Some(stage) => {
            if !can_split(stage, fronted, STAGE_DEPTH) {
                return false;
            }
        },
        None => {},
    }
    match tokenizer_post_processor(tokenizer) {
        Some(stage) => can_join(stage, 1, STAGE_DEPTH).is_some(),
        None => true,
    }
}

} // verus!
