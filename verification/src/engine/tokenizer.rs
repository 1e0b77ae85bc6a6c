//! Text to tokens and back.

use crate::engine::decoders::can_decode;
use crate::engine::decoders::decodes_these;
use crate::engine::stages::can_encode;
use crate::engine::stages::encodes_all;
use crate::engine::stages::find_rewritten;
use crate::engine::stages::normalizer_of;
use crate::engine::stages::rewritten_by;
use tokenizers::Tokenizer;
use vstd::prelude::*;

verus! {

/// The token that opens every encoded text.
pub const BOS: usize = 1;

/// Whether tokens, or none, are what `Tokenizer::encode` may give for a text. A tokenizer that
/// drops merges at random may give more than one answer.
pub uninterp spec fn may_encode(
    tokenizer: Tokenizer,
    text: Seq<char>,
    ids: Option<Seq<u32>>,
) -> bool;

/// What `Tokenizer::decode` gives for tokens: it goes by the vocabulary and the decoder that
/// were loaded.
pub uninterp spec fn decoded_text(tokenizer: Tokenizer, ids: Seq<u32>) -> Option<Seq<char>>;

/// A tokenizer after `Tokenizer::add_tokens` of no tokens.
pub uninterp spec fn renewed(tokenizer: Tokenizer) -> Tokenizer;

/// `Tokenizer::add_tokens` of no tokens: what is looked for in a text is made anew of the added
/// tokens, rewritten as the normaliser that is there now does; the normaliser stays. It runs the
/// normaliser, so one that cannot run on every text is left out.
#[verifier::external_body]
fn tokenizer_renewed(tokenizer: Tokenizer) -> (r: Tokenizer)
    requires
        rewritten_by(tokenizer) is Some,
    ensures
        r == renewed(tokenizer),
        normalizer_of(r) == normalizer_of(tokenizer),
{
    let mut tokenizer = tokenizer;
    tokenizer.add_tokens(&[]);
    tokenizer
}

/// `Tokenizer::encode` without special tokens, and `Encoding::get_ids` of what it gives;
/// nothing where it fails. The answer is one that the tokenizer may give for the text. It stops
/// the program where a stage cannot run, an overlap is not below the limit or added tokens get
/// in each other's way, so those are left out, and so is a tokenizer whose added tokens were
/// not made anew: they may be looked for as another normaliser wrote them.
#[verifier::external_body]
fn tokenizer_encode(tokenizer: &Tokenizer, text: &str) -> (r: Option<Vec<u32>>)
    requires
        encodes_all(*tokenizer),
        exists|t: Tokenizer| #[trigger] renewed(t) == *tokenizer,
    ensures
        may_encode(
            *tokenizer,
            text@,
            match r {
                Some(v) => Some(v@),
                None => None,
            },
        ),
{
    match tokenizer.encode(text, false) {
        Ok(encoding) => Some(encoding.get_ids().to_vec()),
        Err(_) => None,
    }
}

/// `Tokenizer::decode` without special tokens; nothing where it fails. The text depends on
/// the tokenizer and the tokens alone. It stops the program where the decoder gets tokens that
/// it cannot take, so those are left out.
#[verifier::external_body]
fn tokenizer_decode(tokenizer: &Tokenizer, ids: &[u32]) -> (r: Option<String>)
    requires
        decodes_these(*tokenizer, ids@),
    ensures
        decoded_text(*tokenizer, ids@) == (match r {
            Some(s) => Some(s@),
            None => None,
        }),
{
    match tokenizer.decode(ids, true) {
        Ok(text) => Some(text),
        Err(_) => None,
    }
}

/// A loaded tokenizer, with what is known of it.
pub struct TextTokenizer {
    inner: Tokenizer,
    ready: bool,
}

impl TextTokenizer {
    /// The tokenizer.
    pub closed spec fn tokenizer(&self) -> Tokenizer {
        self.inner
    }

    #[verifier::type_invariant]
    spec fn wf(&self) -> bool {
        &&& self.ready == encodes_all(self.inner)
        &&& self.ready ==> exists|t: Tokenizer| #[trigger] renewed(t) == self.inner
    }

    /// A tokenizer, its added tokens made anew where its normaliser can run.
    pub fn new(tokenizer: Tokenizer) -> (r: TextTokenizer)
        ensures
            r.tokenizer() == (if rewritten_by(tokenizer) is Some {
                renewed(tokenizer)
            } else {
                tokenizer
            }),
    {
        if find_rewritten(&tokenizer).is_some() {
            let ghost given = tokenizer;
            let inner = tokenizer_renewed(tokenizer);
            let ready: bool = can_encode(&inner);
            assert(renewed(given) == inner);
            TextTokenizer { inner, ready }
        } else {
            TextTokenizer { inner: tokenizer, ready: false }
        }
    }

    /// Whether every text can be encoded.
    pub fn is_ready(&self) -> (r: bool)
        ensures
            r == encodes_all(self.tokenizer()),
    {
        proof {
            use_type_invariant(self);
        }
        self.ready
    }
}

/// Tokens behind the opening one.
pub open spec fn opened(ids: Seq<u32>) -> Seq<usize> {
    seq![BOS] + ids.map_values(|id: u32| id as usize)
}

/// Tokens behind the opening one.
pub fn with_bos(ids: &Vec<u32>) -> (r: Vec<usize>)
    ensures
        r@ == opened(ids@),
{
    let mut out: Vec<usize> = Vec::new();
    out.push(BOS);
    let mut i: usize = 0;
    assert(out@ =~= opened(ids@.take(0)));
    while i < ids.len()
        invariant
            i <= ids@.len(),
            out@ == opened(ids@.take(i as int)),
        decreases ids@.len() - i,
    {
        out.push(ids[i] as usize);
        i += 1;
        assert(out@ =~= opened(ids@.take(i as int)));
    }
    assert(ids@.take(i as int) =~= ids@);
    out
}

/// The low 32 bits of tokens.
pub open spec fn low_bits(ids: Seq<usize>) -> Seq<u32> {
    ids.map_values(|id: usize| (id as int % 0x1_0000_0000) as u32)
}

/// The low 32 bits of tokens.
pub fn narrowed(ids: &[usize]) -> (r: Vec<u32>)
    ensures
        r@ == low_bits(ids@),
{
    let mut out: Vec<u32> = Vec::new();
    let mut i: usize = 0;
    while i < ids.len()
        invariant
            i <= ids@.len(),
            out@ =~= low_bits(ids@.take(i as int)),
        decreases ids@.len() - i,
    {
        out.push((ids[i] as u64 % 0x1_0000_0000) as u32);
        i += 1;
    }
    assert(ids@.take(i as int) =~= ids@);
    out
}

/// Whether tokens, or none, are what the encoding of a text may be: the tokenizer's answer
/// behind the opening token, and none where its stages cannot run.
pub open spec fn encoded(tokenizer: Tokenizer, text: Seq<char>, r: Option<Vec<usize>>) -> bool {
    if encodes_all(tokenizer) {
        exists|ids: Option<Seq<u32>>| #[trigger]
            may_encode(tokenizer, text, ids) && match ids {
                Some(s) => r matches Some(v) && v@ == opened(s),
                None => r is None,
            }
    } else {
        r is None
    }
}

/// The tokens of a text, behind the opening one; nothing where the tokenizer fails or its
/// stages cannot run.
pub fn encode(tokenizer: &TextTokenizer, text: &str) -> (r: Option<Vec<usize>>)
    ensures
        encoded(tokenizer.tokenizer(), text@, r),
{
    proof {
        use_type_invariant(tokenizer);
    }
    if !tokenizer.ready {
        return None;
    }
    match tokenizer_encode(&tokenizer.inner, text) {
        Some(ids) => {
            assert(may_encode(tokenizer.inner, text@, Some(ids@)));
            Some(with_bos(&ids))
        },
        None => None,
    }
}

/// The text of tokens; nothing where the tokenizer fails or its decoder cannot run on them.
pub fn decode(tokenizer: &TextTokenizer, ids: &[usize]) -> (r: Option<String>)
    ensures
        (match r {
            Some(s) => Some(s@),
            None => None,
        }) == if decodes_these(tokenizer.tokenizer(), low_bits(ids@)) {
            decoded_text(tokenizer.tokenizer(), low_bits(ids@))
        } else {
            None
        },
{
    let low = narrowed(ids);
    if can_decode(&tokenizer.inner, low.as_slice()) {
        tokenizer_decode(&tokenizer.inner, low.as_slice())
    } else {
        None
    }
}

/// The tokens that a generation starts from: those of the prompt, or the opening one alone
/// where the prompt is empty. Nothing where the tokenizer fails or its stages cannot run.
pub fn prompt_tokens(tokenizer: &TextTokenizer, prompt: &str) -> (r: Option<Vec<usize>>)
    ensures
        if prompt@.len() == 0 {
            r matches Some(v) && v@ == seq![BOS]
        } else {
            encoded(tokenizer.tokenizer(), prompt@, r)
        },
{
    if prompt.is_empty() {
        let none: Vec<u32> = Vec::new();
        let v = with_bos(&none);
        assert(v@ =~= seq![BOS]);
        Some(v)
    } else {
        encode(tokenizer, prompt)
    }
}

/// The opening token stands in front, and the others follow as they are.
pub proof fn law_opened_in_front(ids: &Vec<u32>, r: Vec<usize>, i: int)
    requires
        call_ensures(with_bos, (ids,), r),
        0 <= i < ids@.len(),
    ensures
        r@.len() == ids@.len() + 1,
        r@[0] == 1,
        r@[i + 1] == ids@[i],
{
}

/// Tokens of 32 bits are narrowed to themselves, so that what was opened narrows back.
pub proof fn law_narrowing_undoes_widening(ids: &[usize], r: Vec<u32>, i: int)
    requires
        call_ensures(narrowed, (ids,), r),
        0 <= i < ids@.len(),
    ensures
        r@.len() == ids@.len(),
        ids@[i] <= u32::MAX ==> r@[i] == ids@[i],
        (ids@[i] - r@[i]) % 0x1_0000_0000 == 0,
{
}

/// What is encoded is the tokenizer's own answer behind the opening token.
pub proof fn law_encoded_behind_opening(t: &TextTokenizer, text: &str, r: Option<Vec<usize>>)
    requires
        call_ensures(encode, (t, text), r),
    ensures
        r matches Some(v) ==> v@.len() > 0 && v@[0] == 1 && exists|ids: Seq<u32>|
            #[trigger] may_encode(t.tokenizer(), text@, Some(ids)) && v@.len() == ids.len() + 1
                && forall|i: int| 0 <= i < ids.len() ==> v@[i + 1] == #[trigger] ids[i],
        !encodes_all(t.tokenizer()) ==> r is None,
{
    if let Some(v) = r {
        let ids = choose|ids: Option<Seq<u32>>| #[trigger]
            may_encode(t.tokenizer(), text@, ids) && match ids {
                Some(s) => v@ == opened(s),
                None => false,
            };
        let s = ids->0;
        assert(v@ == opened(s));
        assert(may_encode(t.tokenizer(), text@, Some(s)));
        assert forall|i: int| 0 <= i < s.len() implies v@[i + 1] == #[trigger] s[i] by {
        }
    }
}

} // verus!
