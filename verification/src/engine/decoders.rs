//! The stages by which a loaded tokenizer makes a text of tokens, and on which tokens they run.

use crate::engine::stages::can_move_match;
use crate::engine::stages::moves_match;
use crate::engine::stages::replace_debug;
use crate::engine::stages::replace_text;
use crate::engine::stages::STAGE_DEPTH;
use tokenizers::normalizers::Replace;
use tokenizers::Decoder;
use tokenizers::DecoderWrapper;
use tokenizers::Tokenizer;
use vstd::prelude::*;

verus! {

/// The stage that turns tokens into text.
#[verifier::external_type_specification]
#[verifier::external_body]
pub struct ExDecoderWrapper(DecoderWrapper);

/// What a decoding stage is; `Strip` with the character that it takes off, and how often at
/// most at the front and at the end.
pub enum Decoding<S, R> {
    Bpe,
    ByteLevel,
    WordPiece,
    Metaspace,
    Ctc,
    Sequence(S),
    Replace(R),
    Fuse,
    Strip(char, usize, usize),
    ByteFallback,
}

/// The stage that `Tokenizer::get_decoder` gives.
pub uninterp spec fn decoder_of(tokenizer: Tokenizer) -> Option<DecoderWrapper>;

/// Which variant of `DecoderWrapper` a stage is.
pub uninterp spec fn decoding_of(stage: DecoderWrapper) -> Decoding<Seq<DecoderWrapper>, Replace>;

/// What `DecoderWrapper::decode_chain` makes of tokens.
pub uninterp spec fn chained(stage: DecoderWrapper, tokens: Seq<Seq<char>>) -> Option<
    Seq<Seq<char>>,
>;

/// The token that `Tokenizer::id_to_token` gives.
pub uninterp spec fn token_text(tokenizer: Tokenizer, id: u32) -> Option<Seq<char>>;

/// What `AddedVocabulary::is_special_token` says of a token of a tokenizer.
pub uninterp spec fn special_token(tokenizer: Tokenizer, token: Seq<char>) -> bool;

/// What a decoding stage is, its parts as a sequence.
pub open spec fn decoding_view(k: Decoding<&[DecoderWrapper], &Replace>) -> Decoding<
    Seq<DecoderWrapper>,
    Replace,
> {
    match k {
        Decoding::Bpe => Decoding::Bpe,
        Decoding::ByteLevel => Decoding::ByteLevel,
        Decoding::WordPiece => Decoding::WordPiece,
        Decoding::Metaspace => Decoding::Metaspace,
        Decoding::Ctc => Decoding::Ctc,
        Decoding::Sequence(s) => Decoding::Sequence(s@),
        Decoding::Replace(r) => Decoding::Replace(*r),
        Decoding::Fuse => Decoding::Fuse,
        Decoding::Strip(c, a, b) => Decoding::Strip(c, a, b),
        Decoding::ByteFallback => Decoding::ByteFallback,
    }
}

/// The characters of texts.
pub open spec fn texts(v: Seq<String>) -> Seq<Seq<char>> {
    v.map_values(|s: String| s@)
}

/// `Tokenizer::get_decoder`: the stage that was loaded.
#[verifier::external_body]
fn tokenizer_decoder(tokenizer: &Tokenizer) -> (r: Option<&DecoderWrapper>)
    ensures
        decoder_of(*tokenizer) == (match r {
            Some(stage) => Some(*stage),
            None => None,
        }),
{
    tokenizer.get_decoder()
}

/// Which variant of `DecoderWrapper` a stage is, with `Sequence::get_decoders` and the fields of
/// `Strip`.
#[verifier::external_body]
fn decoder_kind(stage: &DecoderWrapper) -> (r: Decoding<&[DecoderWrapper], &Replace>)
    ensures
        decoding_view(r) == decoding_of(*stage),
{
    match stage {
        DecoderWrapper::BPE(_) => Decoding::Bpe,
        DecoderWrapper::ByteLevel(_) => Decoding::ByteLevel,
        DecoderWrapper::WordPiece(_) => Decoding::WordPiece,
        DecoderWrapper::Metaspace(_) => Decoding::Metaspace,
        DecoderWrapper::CTC(_) => Decoding::Ctc,
        DecoderWrapper::Sequence(s) => Decoding::Sequence(s.get_decoders()),
        DecoderWrapper::Replace(r) => Decoding::Replace(r),
        DecoderWrapper::Fuse(_) => Decoding::Fuse,
        DecoderWrapper::Strip(s) => Decoding::Strip(s.content, s.start, s.stop),
        DecoderWrapper::ByteFallback(_) => Decoding::ByteFallback,
    }
}

/// `DecoderWrapper::decode_chain` of a stage that is no sequence; nothing where it fails. It
/// stops the program on tokens that the stage cannot take, so those are left out.
#[verifier::external_body]
fn decoder_chain(stage: &DecoderWrapper, tokens: Vec<String>) -> (r: Option<Vec<String>>)
    requires
        !(decoding_of(*stage) is Sequence),
        takes(decoding_of(*stage), texts(tokens@)),
    ensures
        chained(*stage, texts(tokens@)) == (match r {
            Some(v) => Some(texts(v@)),
            None => None,
        }),
{
    stage.decode_chain(tokens).ok()
}

/// `Tokenizer::id_to_token`: the token of a number, looked up as `Tokenizer::decode` does.
#[verifier::external_body]
fn tokenizer_token(tokenizer: &Tokenizer, id: u32) -> (r: Option<String>)
    ensures
        token_text(*tokenizer, id) == (match r {
            Some(s) => Some(s@),
            None => None,
        }),
{
    tokenizer.id_to_token(id)
}

/// `AddedVocabulary::is_special_token` of the tokenizer's added vocabulary.
#[verifier::external_body]
fn tokenizer_special(tokenizer: &Tokenizer, token: &str) -> (r: bool)
    ensures
        r == special_token(*tokenizer, token@),
{
    tokenizer.get_added_vocabulary().is_special_token(token)
}

/// Whether a character can be taken off both ends of a token so often: the token holds another
/// one, or is long enough for both.
pub open spec fn strips(token: Seq<char>, c: char, start: usize, stop: usize) -> bool {
    (exists|k: int| 0 <= k < token.len() && #[trigger] token[k] != c) || (stop <= token.len() && (
    start <= token.len() - stop || stop == 0))
}

/// Whether a decoding stage, but for a sequence, takes tokens: `Bpe` needs one, `Strip` cannot
/// take off more than there is, and the pattern of `Replace` keeps its matches in order.
pub open spec fn takes(k: Decoding<Seq<DecoderWrapper>, Replace>, tokens: Seq<Seq<char>>) -> bool {
    match k {
        Decoding::Bpe => tokens.len() > 0,
        Decoding::Replace(r) => !moves_match(replace_text(r)),
        Decoding::Strip(c, start, stop) => forall|i: int|
            0 <= i < tokens.len() ==> strips(#[trigger] tokens[i], c, start, stop),
        _ => true,
    }
}

/// What a decoding stage makes of tokens; nothing where it fails or cannot take them.
pub open spec fn decoded_by(stage: DecoderWrapper, tokens: Seq<Seq<char>>, depth: nat) -> Option<
    Seq<Seq<char>>,
>
    decreases depth, 0nat,
{
    match decoding_of(stage) {
        Decoding::Sequence(s) => if depth > 0 {
            decoded_by_all(s, tokens, (depth - 1) as nat)
        } else {
            None
        },
        k => if takes(k, tokens) {
            chained(stage, tokens)
        } else {
            None
        },
    }
}

/// What decoding stages one after another make of tokens.
pub open spec fn decoded_by_all(
    s: Seq<DecoderWrapper>,
    tokens: Seq<Seq<char>>,
    depth: nat,
) -> Option<Seq<Seq<char>>>
    decreases depth, s.len(),
{
    if s.len() == 0 {
        Some(tokens)
    } else {
        match decoded_by_all(s.drop_last(), tokens, depth) {
            Some(t) => decoded_by(s.last(), t, depth),
            None => None,
        }
    }
}

proof fn lemma_decoded_stop(
    s: Seq<DecoderWrapper>,
    k: int,
    tokens: Seq<Seq<char>>,
    depth: nat,
)
    requires
        0 <= k <= s.len(),
        decoded_by_all(s.take(k), tokens, depth) is None,
    ensures
        decoded_by_all(s, tokens, depth) is None,
    decreases s.len() - k,
{
    if k == s.len() {
        assert(s.take(k) =~= s);
    } else {
        assert(s.take(k + 1).drop_last() =~= s.take(k));
        lemma_decoded_stop(s, k + 1, tokens, depth);
    }
}

fn can_strip(token: &str, c: char, start: usize, stop: usize) -> (r: bool)
    ensures
        r == strips(token@, c, start, stop),
{
    let n = token.unicode_len();
    let mut k: usize = 0;
    while k < n
        invariant
            n == token@.len(),
            k <= n,
            forall|j: int| 0 <= j < k ==> #[trigger] token@[j] == c,
        decreases n - k,
    {
        if token.get_char(k) != c {
            assert(token@[k as int] != c);
            return true;
        }
        k += 1;
    }
    stop <= n && (start <= n - stop || stop == 0)
}

fn can_take(k: &Decoding<&[DecoderWrapper], &Replace>, tokens: &Vec<String>) -> (r: bool)
    ensures
        r == takes(decoding_view(*k), texts(tokens@)),
{
    match k {
        Decoding::Bpe => tokens.len() > 0,
        Decoding::Replace(r) => !can_move_match(replace_debug(r).as_str()),
        Decoding::Strip(c, start, stop) => {
            let mut i: usize = 0;
            while i < tokens.len()
                invariant
                    i <= tokens@.len(),
                    decoding_view(*k) == Decoding::<Seq<DecoderWrapper>, Replace>::Strip(
                        *c,
                        *start,
                        *stop,
                    ),
                    forall|j: int|
                        0 <= j < i ==> strips(#[trigger] texts(tokens@)[j], *c, *start, *stop),
                decreases tokens@.len() - i,
            {
                if !can_strip(tokens[i].as_str(), *c, *start, *stop) {
                    assert(!strips(texts(tokens@)[i as int], *c, *start, *stop));
                    return false;
                }
                i += 1;
            }
            true
        },
        _ => true,
    }
}

fn run(stage: &DecoderWrapper, tokens: Vec<String>, depth: usize) -> (r: Option<Vec<String>>)
    ensures
        decoded_by(*stage, texts(tokens@), depth as nat) == (match r {
            Some(v) => Some(texts(v@)),
            None => None,
        }),
    decreases depth,
{
    let k = decoder_kind(stage);
    match k {
        Decoding::Sequence(s) => {
            if depth == 0 {
                return None;
            }
            let ghost given = texts(tokens@);
            let mut at: Vec<String> = tokens;
            let mut i: usize = 0;
            assert(s@.take(0) =~= Seq::empty());
            while i < s.len()
                invariant
                    i <= s@.len(),
                    depth > 0,
                    given == texts(tokens@),
                    decoding_of(*stage) == Decoding::<Seq<DecoderWrapper>, Replace>::Sequence(s@),
                    decoded_by_all(s@.take(i as int), given, (depth - 1) as nat) == Some(
                        texts(at@),
                    ),
                decreases s@.len() - i,
            {
                assert(s@.take(i + 1).drop_last() =~= s@.take(i as int));
                assert(s@.take(i + 1).last() == s@[i as int]);
                match run(&s[i], at, depth - 1) {
                    Some(t) => {
                        at = t;
                    },
                    None => {
                        proof {
                            lemma_decoded_stop(s@, i + 1, given, (depth - 1) as nat);
                        }
                        return None;
                    },
                }
                i += 1;
            }
            assert(s@.take(i as int) =~= s@);
            Some(at)
        },
        _ => if can_take(&k, &tokens) {
            decoder_chain(stage, tokens)
        } else {
            None
        },
    }
}

/// Whether a number is that of a token of the text, one that is there and is not special.
pub open spec fn shown(tokenizer: Tokenizer, id: u32) -> bool {
    token_text(tokenizer, id) matches Some(s) && !special_token(tokenizer, s)
}

/// The tokens of the text, in order.
pub open spec fn shown_tokens(tokenizer: Tokenizer, ids: Seq<u32>) -> Seq<Seq<char>>
    decreases ids.len(),
{
    if ids.len() == 0 {
        Seq::empty()
    } else {
        let rest = shown_tokens(tokenizer, ids.drop_last());
        if shown(tokenizer, ids.last()) {
            rest.push(token_text(tokenizer, ids.last())->0)
        } else {
            rest
        }
    }
}

/// Whether a tokenizer can decode tokens: its decoding stage takes those that are shown.
pub open spec fn decodes_these(tokenizer: Tokenizer, ids: Seq<u32>) -> bool {
    decoder_of(tokenizer) matches Some(stage) ==> decoded_by(
        stage,
        shown_tokens(tokenizer, ids),
        STAGE_DEPTH as nat,
    ) is Some
}

/// Whether a tokenizer can decode tokens.
pub fn can_decode(tokenizer: &Tokenizer, ids: &[u32]) -> (r: bool)
    ensures
        r == decodes_these(*tokenizer, ids@),
{
    match tokenizer_decoder(tokenizer) {
        Some(stage) => {
            let mut tokens: Vec<String> = Vec::new();
            let mut i: usize = 0;
            assert(ids@.take(0) =~= Seq::empty());
            while i < ids.len()
                invariant
                    i <= ids@.len(),
                    texts(tokens@) =~= shown_tokens(*tokenizer, ids@.take(i as int)),
                decreases ids@.len() - i,
            {
                assert(ids@.take(i + 1).drop_last() =~= ids@.take(i as int));
                assert(ids@.take(i + 1).last() == ids@[i as int]);
                let ghost before = tokens@;
                match tokenizer_token(tokenizer, ids[i]) {
                    Some(token) => {
                        if !tokenizer_special(tokenizer, token.as_str()) {
                            tokens.push(token);
                            assert(texts(tokens@) =~= texts(before).push(token@));
                        }
                    },
                    None => {},
                }
                i += 1;
            }
            assert(ids@.take(i as int) =~= ids@);
            run(stage, tokens, STAGE_DEPTH).is_some()
        },
        None => true,
    }
}

} // verus!
