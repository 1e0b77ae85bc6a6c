//! The plan of a generation: what is computed in which order, which token goes in, when a
//! token is sampled, and when it ends.

use vstd::prelude::*;

use crate::engine::chat_template::format_chat_prompt;
use crate::engine::chat_template::turns;
use crate::engine::chat_template::ChatMessage;
use crate::engine::prefetch::LayerTensor;
use crate::engine::thermal::Coherence;

verus! {

/// A request for a generation. The temperature and the nucleus are single-precision
/// patterns.
#[derive(Debug)]
pub struct InferenceRequest {
    pub prompt: Option<String>,
    pub messages: Option<Vec<ChatMessage>>,
    pub max_tokens: usize,
    pub temperature: u32,
    pub top_k: usize,
    pub top_p: u32,
}

impl InferenceRequest {
    /// The text that a generation starts from.
    pub open spec fn text(&self) -> Seq<char> {
        match self.messages {
            Some(m) => turns(m@) + "<|assistant|>\n"@,
            None => match self.prompt {
                Some(p) => p@,
                None => Seq::empty(),
            },
        }
    }

    /// The text that a generation starts from: that of the chat, or else the prompt, or
    /// else none.
    pub fn prompt_text(&self) -> (r: String)
        ensures
            r@ == self.text(),
    {
        match &self.messages {
            Some(m) => format_chat_prompt(m.as_slice()),
            None => match &self.prompt {
                Some(p) => p.clone(),
                None => String::new(),
            },
        }
    }
}

/// The number of threads for a generation.
pub fn thread_count(throttling: bool, coherence: Coherence) -> (r: usize)
    ensures
        r == (if throttling || coherence == Coherence::Low {
            1usize
        } else if coherence == Coherence::Middle {
            2usize
        } else {
            6usize
        }),
{
    if throttling || coherence == Coherence::Low {
        1
    } else if coherence == Coherence::Middle {
        2
    } else {
        6
    }
}

/// Where the embedding of a token lies in the table; nothing where the table does not hold
/// it.
pub fn embedding_range(token: usize, embed_dim: usize, table_len: usize) -> (r: Option<
    (usize, usize),
>)
    ensures
        r == (if token * embed_dim + embed_dim <= table_len {
            Some(((token * embed_dim) as usize, (token * embed_dim + embed_dim) as usize))
        } else {
            None
        }),
{
    match token.checked_mul(embed_dim) {
        Some(start) => if start <= table_len && embed_dim <= table_len - start {
            Some((start, start + embed_dim))
        } else {
            None
        },
        None => None,
    }
}

/// The length that the cache of keys and values is made for.
pub fn cache_length(context_len: usize) -> (r: usize)
    ensures
        r == (if context_len >= 2048 {
            context_len
        } else {
            2048
        }),
{
    if context_len >= 2048 {
        context_len
    } else {
        2048
    }
}

// ---------------------------------------------------------------------------
// The operations of a layer
// ---------------------------------------------------------------------------

/// An operation of a layer on one position.
#[derive(Clone, Copy, Debug, PartialEq, Eq, Structural)]
pub enum LayerOp {
    /// Normalise the state with the attention weights.
    NormAttn,
    /// Multiply by the matrices of queries, keys and values.
    Project,
    /// Rotate queries and keys by the position.
    Rotate,
    /// Put keys and values in the cache.
    SaveKv,
    /// Attend over the positions so far.
    Attend,
    /// Multiply by the output matrix.
    OutProject,
    /// Add to the state.
    AddAttn,
    /// Normalise the state with the feed-forward weights.
    NormFfn,
    /// Multiply by the matrices of the two branches.
    GateUp,
    /// Pass the first branch through its activation and multiply by the second.
    Activate,
    /// Multiply by the down matrix.
    DownProject,
    /// Add to the state.
    AddFfn,
    /// Ask for the weights of the next layer.
    PrefetchNext,
}

/// The operations of a layer while a token is decoded, in order.
pub open spec fn decode_ops() -> Seq<LayerOp> {
    seq![
        LayerOp::NormAttn,
        LayerOp::Project,
        LayerOp::Rotate,
        LayerOp::SaveKv,
        LayerOp::Attend,
        LayerOp::OutProject,
        LayerOp::AddAttn,
        LayerOp::NormFfn,
        LayerOp::GateUp,
        LayerOp::Activate,
        LayerOp::DownProject,
        LayerOp::AddFfn,
        LayerOp::PrefetchNext,
    ]
}

/// The operations of a layer while a token is decoded, in order.
pub fn layer_ops() -> (r: [LayerOp; 13])
    ensures
        r@ == decode_ops(),
{
    let r: [LayerOp; 13] = [
        LayerOp::NormAttn,
        LayerOp::Project,
        LayerOp::Rotate,
        LayerOp::SaveKv,
        LayerOp::Attend,
        LayerOp::OutProject,
        LayerOp::AddAttn,
        LayerOp::NormFfn,
        LayerOp::GateUp,
        LayerOp::Activate,
        LayerOp::DownProject,
        LayerOp::AddFfn,
        LayerOp::PrefetchNext,
    ];
    assert(r@ =~= decode_ops());
    r
}

/// The weights that an operation reads, in order.
pub open spec fn weights_of(op: LayerOp) -> Seq<LayerTensor> {
    match op {
        LayerOp::NormAttn => seq![LayerTensor::AttnNorm],
        LayerOp::Project => seq![LayerTensor::Q, LayerTensor::K, LayerTensor::V],
        LayerOp::OutProject => seq![LayerTensor::Output],
        LayerOp::NormFfn => seq![LayerTensor::FfnNorm],
        LayerOp::GateUp => seq![LayerTensor::Gate, LayerTensor::Up],
        LayerOp::DownProject => seq![LayerTensor::Down],
        _ => Seq::empty(),
    }
}

/// The weights that an operation reads, in order.
pub fn op_weights(op: LayerOp) -> (r: Vec<LayerTensor>)
    ensures
        r@ == weights_of(op),
{
    let mut out: Vec<LayerTensor> = Vec::new();
    match op {
        LayerOp::NormAttn => {
            out.push(LayerTensor::AttnNorm);
        },
        LayerOp::Project => {
            out.push(LayerTensor::Q);
            out.push(LayerTensor::K);
            out.push(LayerTensor::V);
        },
        LayerOp::OutProject => {
            out.push(LayerTensor::Output);
        },
        LayerOp::NormFfn => {
            out.push(LayerTensor::FfnNorm);
        },
        LayerOp::GateUp => {
            out.push(LayerTensor::Gate);
            out.push(LayerTensor::Up);
        },
        LayerOp::DownProject => {
            out.push(LayerTensor::Down);
        },
        _ => {},
    }
    assert(out@ =~= weights_of(op));
    out
}

// ---------------------------------------------------------------------------
// Prefill
// ---------------------------------------------------------------------------

/// A step of a layer while all tokens of a prompt go through it together.
#[derive(Clone, Copy, Debug, PartialEq, Eq, Structural)]
pub enum PrefillStep {
    /// An operation on all positions.
    All(LayerOp),
    /// Rotate the queries and keys of a position, and put its keys and values in the cache.
    Save { pos: usize },
    /// Attend from a position over the first `seq_len` positions.
    Attend { pos: usize, seq_len: usize },
}

/// The rotations and saves of the first positions.
pub open spec fn saves(n: nat) -> Seq<PrefillStep> {
    Seq::new(n, |t: int| PrefillStep::Save { pos: t as usize })
}

/// The attention of the first positions.
pub open spec fn attends(n: nat) -> Seq<PrefillStep> {
    Seq::new(n, |t: int| PrefillStep::Attend { pos: t as usize, seq_len: (t + 1) as usize })
}

/// What follows the attention.
pub open spec fn prefill_tail() -> Seq<PrefillStep> {
    seq![
        PrefillStep::All(LayerOp::OutProject),
        PrefillStep::All(LayerOp::AddAttn),
        PrefillStep::All(LayerOp::NormFfn),
        PrefillStep::All(LayerOp::GateUp),
        PrefillStep::All(LayerOp::Activate),
        PrefillStep::All(LayerOp::DownProject),
        PrefillStep::All(LayerOp::AddFfn),
    ]
}

/// The steps of a layer for a prompt of `batch` tokens, in order.
pub open spec fn prefill_steps(batch: nat) -> Seq<PrefillStep> {
    seq![PrefillStep::All(LayerOp::NormAttn), PrefillStep::All(LayerOp::Project)] + saves(batch)
        + attends(batch) + prefill_tail()
}

/// The steps of a layer for a prompt of `batch` tokens, in order. They are the same for
/// every layer.
pub fn prefill_batch(batch: usize) -> (r: Vec<PrefillStep>)
    requires
        batch < usize::MAX,
    ensures
        r@ == prefill_steps(batch as nat),
{
    let mut out: Vec<PrefillStep> = Vec::new();
    out.push(PrefillStep::All(LayerOp::NormAttn));
    out.push(PrefillStep::All(LayerOp::Project));
    let ghost head = seq![
        PrefillStep::All(LayerOp::NormAttn),
        PrefillStep::All(LayerOp::Project),
    ];
    let mut t: usize = 0;
    assert(out@ =~= head + saves(0));
    while t < batch
        invariant
            t <= batch,
            out@ == head + saves(t as nat),
        decreases batch - t,
    {
        out.push(PrefillStep::Save { pos: t });
        t += 1;
        assert(out@ =~= head + saves(t as nat));
    }
    let ghost front = head + saves(batch as nat);
    let mut t: usize = 0;
    assert(out@ =~= front + attends(0));
    while t < batch
        invariant
            t <= batch < usize::MAX,
            out@ == front + attends(t as nat),
        decreases batch - t,
    {
        out.push(PrefillStep::Attend { pos: t, seq_len: t + 1 });
        t += 1;
        assert(out@ =~= front + attends(t as nat));
    }
    out.push(PrefillStep::All(LayerOp::OutProject));
    out.push(PrefillStep::All(LayerOp::AddAttn));
    out.push(PrefillStep::All(LayerOp::NormFfn));
    out.push(PrefillStep::All(LayerOp::GateUp));
    out.push(PrefillStep::All(LayerOp::Activate));
    out.push(PrefillStep::All(LayerOp::DownProject));
    out.push(PrefillStep::All(LayerOp::AddFfn));
    assert(out@ =~= prefill_steps(batch as nat));
    out
}

/// Attention is causal and complete: a position attends over itself and those before it,
/// and all their keys and values have been saved before.
pub proof fn law_prefill_causal(batch: nat, i: int, pos: usize, seq_len: usize, earlier: nat)
    requires
        batch < usize::MAX,
        0 <= i < prefill_steps(batch).len(),
        prefill_steps(batch)[i] == (PrefillStep::Attend { pos, seq_len }),
        earlier < seq_len,
    ensures
        seq_len == pos + 1,
        pos < batch,
        exists|k: int|
            0 <= k < i && #[trigger] prefill_steps(batch)[k] == (PrefillStep::Save {
                pos: earlier as usize,
            }),
{
    let s = prefill_steps(batch);
    let head = seq![PrefillStep::All(LayerOp::NormAttn), PrefillStep::All(LayerOp::Project)];
    assert(s.len() == 2 + batch + batch + 7);
    if i < 2 {
        assert(s[i] == head[i]);
    } else if i < 2 + batch {
        assert(s[i] == saves(batch)[i - 2]);
    } else if i >= 2 + batch + batch {
        assert(s[i] == prefill_tail()[i - (2 + batch + batch)]);
    } else {
        assert(s[i] == attends(batch)[i - 2 - batch]);
        let k = 2 + earlier as int;
        assert(s[k] == saves(batch)[earlier as int]);
    }
}

// ---------------------------------------------------------------------------
// The course of a generation
// ---------------------------------------------------------------------------

/// What is to be done next.
#[derive(Clone, Copy, Debug, PartialEq, Eq, Structural)]
pub enum Action {
    /// Take all tokens of the prompt through the layers together, sample a token and send
    /// it.
    Prefill,
    /// Take a token at a position through the layers, sample a token and send it.
    Decode { token: usize, pos: usize },
    /// Nothing is left to be done.
    Finish,
}

/// The course of a generation.
pub struct Generation {
    prompt: Vec<usize>,
    tokens: Vec<usize>,
    max_tokens: usize,
    step: usize,
    cache_pos: usize,
    generated: usize,
    prefilled: bool,
    closed: bool,
}

/// A generation as it stands.
pub struct Course {
    pub prompt: Seq<usize>,
    /// The tokens of the prompt and those sampled, in order.
    pub tokens: Seq<usize>,
    pub max_tokens: nat,
    /// The next step of decoding.
    pub step: nat,
    /// The position of the cache of keys and values.
    pub cache_pos: nat,
    /// How many tokens were sampled and sent.
    pub generated: nat,
    pub prefilled: bool,
    pub closed: bool,
}

/// Number of steps of the whole generation.
pub open spec fn total_steps(c: Course) -> nat {
    (c.max_tokens + c.prompt.len() - 1) as nat
}

/// What is to be done next.
pub open spec fn next_action(c: Course) -> Action {
    if c.prompt.len() > 1 && !c.prefilled {
        Action::Prefill
    } else if c.closed || c.step >= total_steps(c) {
        Action::Finish
    } else {
        Action::Decode {
            token: if c.step < c.prompt.len() {
                c.prompt[c.step as int]
            } else {
                c.tokens.last()
            },
            pos: c.step as usize,
        }
    }
}

/// The course of a generation at its start.
pub open spec fn started(prompt: Seq<usize>, max_tokens: nat) -> Course {
    Course {
        prompt,
        tokens: prompt,
        max_tokens,
        step: 0,
        cache_pos: 0,
        generated: 0,
        prefilled: false,
        closed: false,
    }
}

/// The course after the prefill, which sampled `token`.
pub open spec fn after_prefill(c: Course, token: usize) -> Course {
    Course {
        tokens: c.tokens.push(token),
        step: c.prompt.len(),
        cache_pos: c.cache_pos + c.prompt.len(),
        generated: c.generated + 1,
        prefilled: true,
        ..c
    }
}

/// The course after a token was decoded and `token` was sampled; `sent` says whether it could
/// be sent on. Where it could not, the generation ends.
pub open spec fn after_sample(c: Course, token: usize, sent: bool) -> Course {
    if sent {
        Course {
            tokens: c.tokens.push(token),
            step: c.step + 1,
            cache_pos: c.cache_pos + 1,
            generated: c.generated + 1,
            ..c
        }
    } else {
        Course { tokens: c.tokens.push(token), closed: true, ..c }
    }
}

/// What holds of a course at every point.
pub open spec fn on_course(c: Course) -> bool {
    &&& c.prompt.len() >= 1
    &&& c.max_tokens + c.prompt.len() <= usize::MAX
    &&& c.cache_pos == c.step
    &&& c.tokens.len() >= c.prompt.len()
    &&& c.tokens.take(c.prompt.len() as int) == c.prompt
    &&& c.generated <= c.tokens.len() - c.prompt.len() <= c.generated + 1
    &&& c.step <= total_steps(c) || (c.prefilled && c.step == c.prompt.len())
    &&& c.prefilled ==> c.prompt.len() > 1 && c.step >= c.prompt.len()
    &&& c.prompt.len() > 1 && !c.prefilled ==> c.step == 0 && c.generated == 0 && !c.closed
    &&& c.prefilled ==> c.generated == c.step - c.prompt.len() + 1
    &&& c.prompt.len() == 1 ==> c.generated == c.step
    &&& !c.closed ==> c.tokens.len() - c.prompt.len() == c.generated
}

impl View for Generation {
    type V = Course;

    closed spec fn view(&self) -> Course {
        Course {
            prompt: self.prompt@,
            tokens: self.tokens@,
            max_tokens: self.max_tokens as nat,
            step: self.step as nat,
            cache_pos: self.cache_pos as nat,
            generated: self.generated as nat,
            prefilled: self.prefilled,
            closed: self.closed,
        }
    }
}

impl Generation {
    pub open spec fn wf(&self) -> bool {
        on_course(self@)
    }

    /// Starts a generation of at most `max_tokens` tokens after a prompt.
    pub fn start(prompt: Vec<usize>, max_tokens: usize) -> (r: Generation)
        requires
            prompt@.len() >= 1,
            max_tokens + prompt@.len() <= usize::MAX,
        ensures
            r.wf(),
            r@ == started(prompt@, max_tokens as nat),
    {
        let mut tokens: Vec<usize> = Vec::new();
        let mut i: usize = 0;
        while i < prompt.len()
            invariant
                i <= prompt@.len(),
                tokens@ =~= prompt@.take(i as int),
            decreases prompt@.len() - i,
        {
            tokens.push(prompt[i]);
            i += 1;
        }
        assert(prompt@.take(i as int) =~= prompt@);
        assert(tokens@.take(prompt@.len() as int) =~= prompt@);
        Generation {
            prompt,
            tokens,
            max_tokens,
            step: 0,
            cache_pos: 0,
            generated: 0,
            prefilled: false,
            closed: false,
        }
    }

    /// What is to be done next.
    pub fn next(&self) -> (r: Action)
        requires
            self.wf(),
        ensures
            r == next_action(self@),
    {
        let n: usize = self.prompt.len();
        if n > 1 && !self.prefilled {
            return Action::Prefill;
        }
        if self.closed || self.step >= self.max_tokens + (n - 1) {
            return Action::Finish;
        }
        let token: usize = if self.step < n {
            self.prompt[self.step]
        } else {
            self.tokens[self.tokens.len() - 1]
        };
        Action::Decode { token, pos: self.step }
    }

    /// Takes in the token that the prefill sampled.
    pub fn prefill_done(&mut self, token: usize)
        requires
            old(self).wf(),
            next_action(old(self)@) == Action::Prefill,
        ensures
            final(self).wf(),
            final(self)@ == after_prefill(old(self)@, token),
    {
        let ghost before = self.tokens@;
        let n: usize = self.prompt.len();
        self.tokens.push(token);
        assert(self.tokens@.take(n as int) =~= before.take(n as int));
        self.step = n;
        self.cache_pos = n;
        self.generated = 1;
        self.prefilled = true;
    }

    /// Takes in that a token was decoded and another one sampled, and whether that could be
    /// sent on.
    pub fn sample_done(&mut self, token: usize, sent: bool)
        requires
            old(self).wf(),
            next_action(old(self)@) is Decode,
        ensures
            final(self).wf(),
            final(self)@ == after_sample(old(self)@, token, sent),
    {
        let ghost before = self.tokens@;
        let n: usize = self.prompt.len();
        self.tokens.push(token);
        assert(self.tokens@.take(n as int) =~= before.take(n as int));
        if sent {
            self.step = self.step + 1;
            self.cache_pos = self.cache_pos + 1;
            self.generated = self.generated + 1;
        } else {
            self.closed = true;
        }
    }

    /// The tokens of the prompt and those sampled.
    pub fn tokens(&self) -> (r: &[usize])
        ensures
            r@ == self@.tokens,
    {
        self.tokens.as_slice()
    }

    /// How many tokens were sampled and sent.
    pub fn generated(&self) -> (r: usize)
        ensures
            r == self@.generated,
    {
        self.generated
    }
}

/// A generation whose tokens could all be sent ends with as many tokens as were asked for;
/// after a prompt of more than one token, at least one.
pub proof fn law_generated_count(c: Course)
    requires
        on_course(c),
        next_action(c) == Action::Finish,
        !c.closed,
    ensures
        c.generated == (if c.prompt.len() > 1 && c.max_tokens == 0 {
            1
        } else {
            c.max_tokens
        }),
        c.tokens.len() == c.prompt.len() + c.generated,
{
}

/// Every token is decoded at the position where its keys and values go, right behind those
/// of all tokens before it; it is the token that comes next; and a token is sampled after it
/// only once the prompt has been taken in.
pub proof fn law_decode_position(c: Course)
    requires
        on_course(c),
    ensures
        next_action(c) matches Action::Decode { token, pos } ==> pos == c.cache_pos && pos + 1
            == c.tokens.len() && token == c.tokens[pos as int] && pos + 1 >= c.prompt.len(),
{
    if let Action::Decode { token, pos } = next_action(c) {
        if c.step < c.prompt.len() {
            assert(c.tokens.take(c.prompt.len() as int)[pos as int] == c.tokens[pos as int]);
        } else if c.prompt.len() > 1 {
            assert(c.tokens.len() == c.step + 1);
        }
    }
}

/// A generation ends: every report of work done brings the end nearer.
pub proof fn law_progress(c: Course, token: usize, sent: bool)
    requires
        on_course(c),
    ensures
        next_action(c) == Action::Prefill ==> after_prefill(c, token).step > c.step,
        next_action(c) is Decode ==> c.step < total_steps(c),
        next_action(c) is Decode ==> after_sample(c, token, sent).closed || after_sample(
            c,
            token,
            sent,
        ).step == c.step + 1,
{
}

// ---------------------------------------------------------------------------
// What operations read
// ---------------------------------------------------------------------------

/// Whether an operation reads what another one of the same layer writes.
pub open spec fn reads(op: LayerOp, earlier: LayerOp) -> bool {
    match op {
        LayerOp::NormAttn => false,
        LayerOp::Project => earlier is NormAttn,
        LayerOp::Rotate => earlier is Project,
        // rotated keys, and values
        LayerOp::SaveKv => earlier is Rotate || earlier is Project,
        // rotated queries, and the cache with the position's own keys and values
        LayerOp::Attend => earlier is Rotate || earlier is SaveKv,
        LayerOp::OutProject => earlier is Attend,
        LayerOp::AddAttn => earlier is OutProject,
        // the state with the attention
        LayerOp::NormFfn => earlier is AddAttn,
        LayerOp::GateUp => earlier is NormFfn,
        LayerOp::Activate => earlier is GateUp,
        LayerOp::DownProject => earlier is Activate,
        LayerOp::AddFfn => earlier is DownProject || earlier is AddAttn,
        // the layer is done
        LayerOp::PrefetchNext => earlier is AddFfn,
    }
}

/// Whether every operation is done once, behind all that it reads.
pub open spec fn in_order(ops: Seq<LayerOp>) -> bool {
    &&& forall|i: int, j: int|
        0 <= i < ops.len() && 0 <= j < ops.len() && #[trigger] reads(ops[i], ops[j]) ==> j < i
    &&& forall|i: int, earlier: LayerOp|
        0 <= i < ops.len() && #[trigger] reads(ops[i], earlier) ==> ops.contains(earlier)
    &&& ops.no_duplicates()
}

/// While a token is decoded, every operation of a layer is done once, and only behind those
/// whose results it reads.
pub proof fn law_decode_in_order(r: [LayerOp; 13], op: LayerOp)
    requires
        call_ensures(layer_ops, (), r),
    ensures
        in_order(r@),
        r@.contains(op),
{
    let ops = r@;
    assert(ops[0] is NormAttn && ops[1] is Project && ops[2] is Rotate && ops[3] is SaveKv
        && ops[4] is Attend && ops[5] is OutProject && ops[6] is AddAttn && ops[7] is NormFfn
        && ops[8] is GateUp && ops[9] is Activate && ops[10] is DownProject && ops[11] is AddFfn
        && ops[12] is PrefetchNext);
    assert forall|earlier: LayerOp| ops.contains(earlier) by {
        let k: int = match earlier {
            LayerOp::NormAttn => 0,
            LayerOp::Project => 1,
            LayerOp::Rotate => 2,
            LayerOp::SaveKv => 3,
            LayerOp::Attend => 4,
            LayerOp::OutProject => 5,
            LayerOp::AddAttn => 6,
            LayerOp::NormFfn => 7,
            LayerOp::GateUp => 8,
            LayerOp::Activate => 9,
            LayerOp::DownProject => 10,
            LayerOp::AddFfn => 11,
            LayerOp::PrefetchNext => 12,
        };
        assert(ops[k] == earlier);
    }
}

/// What a step of a prefill does at a position.
pub open spec fn done_at(step: PrefillStep, at: usize) -> Seq<LayerOp> {
    match step {
        PrefillStep::All(op) => seq![op],
        PrefillStep::Save { pos } => if pos == at {
            seq![LayerOp::Rotate, LayerOp::SaveKv]
        } else {
            Seq::empty()
        },
        PrefillStep::Attend { pos, seq_len } => if pos == at {
            seq![LayerOp::Attend]
        } else {
            Seq::empty()
        },
    }
}

/// What steps of a prefill do at a position, in order.
pub open spec fn all_done_at(steps: Seq<PrefillStep>, at: usize) -> Seq<LayerOp>
    decreases steps.len(),
{
    if steps.len() == 0 {
        Seq::empty()
    } else {
        all_done_at(steps.drop_last(), at) + done_at(steps.last(), at)
    }
}

proof fn lemma_done_add(a: Seq<PrefillStep>, b: Seq<PrefillStep>, at: usize)
    ensures
        all_done_at(a + b, at) == all_done_at(a, at) + all_done_at(b, at),
    decreases b.len(),
{
    if b.len() == 0 {
        assert(a + b =~= a);
        assert(all_done_at(a, at) + all_done_at(b, at) =~= all_done_at(a, at));
    } else {
        lemma_done_add(a, b.drop_last(), at);
        assert((a + b).drop_last() =~= a + b.drop_last());
        assert(all_done_at(a + b, at) =~= all_done_at(a, at) + all_done_at(b, at));
    }
}

proof fn lemma_done_saves(n: nat, at: usize)
    requires
        n <= usize::MAX,
    ensures
        all_done_at(saves(n), at) == if at < n {
            seq![LayerOp::Rotate, LayerOp::SaveKv]
        } else {
            Seq::empty()
        },
    decreases n,
{
    if n > 0 {
        lemma_done_saves((n - 1) as nat, at);
        assert(saves(n).drop_last() =~= saves((n - 1) as nat));
        assert(saves(n).last() == (PrefillStep::Save { pos: (n - 1) as usize }));
        let both = seq![LayerOp::Rotate, LayerOp::SaveKv];
        assert(both + Seq::<LayerOp>::empty() =~= both);
        assert(Seq::<LayerOp>::empty() + both =~= both);
        assert(Seq::<LayerOp>::empty() + Seq::<LayerOp>::empty() =~= Seq::<LayerOp>::empty());
    }
}

proof fn lemma_done_attends(n: nat, at: usize)
    requires
        n < usize::MAX,
    ensures
        all_done_at(attends(n), at) == if at < n {
            seq![LayerOp::Attend]
        } else {
            Seq::empty()
        },
    decreases n,
{
    if n > 0 {
        lemma_done_attends((n - 1) as nat, at);
        assert(attends(n).drop_last() =~= attends((n - 1) as nat));
        assert(attends(n).last() == (PrefillStep::Attend {
            pos: (n - 1) as usize,
            seq_len: n as usize,
        }));
        let one = seq![LayerOp::Attend];
        assert(one + Seq::<LayerOp>::empty() =~= one);
        assert(Seq::<LayerOp>::empty() + one =~= one);
        assert(Seq::<LayerOp>::empty() + Seq::<LayerOp>::empty() =~= Seq::<LayerOp>::empty());
    }
}

proof fn lemma_done_all(ops: Seq<LayerOp>, at: usize)
    ensures
        all_done_at(ops.map_values(|op: LayerOp| PrefillStep::All(op)), at) == ops,
    decreases ops.len(),
{
    let steps = ops.map_values(|op: LayerOp| PrefillStep::All(op));
    if ops.len() > 0 {
        let front = ops.drop_last();
        lemma_done_all(front, at);
        assert(steps.drop_last() =~= front.map_values(|op: LayerOp| PrefillStep::All(op)));
        assert(front + seq![ops.last()] =~= ops);
    } else {
        assert(ops =~= Seq::<LayerOp>::empty());
    }
}

proof fn lemma_prefill_done(n: nat, at: usize)
    requires
        at < n < usize::MAX,
    ensures
        all_done_at(prefill_steps(n), at) == decode_ops().drop_last(),
{
    let head = seq![PrefillStep::All(LayerOp::NormAttn), PrefillStep::All(LayerOp::Project)];
    lemma_done_saves(n, at);
    lemma_done_attends(n, at);
    lemma_done_add(head, saves(n), at);
    lemma_done_add(head + saves(n), attends(n), at);
    lemma_done_add(head + saves(n) + attends(n), prefill_tail(), at);
    let first = seq![LayerOp::NormAttn, LayerOp::Project];
    lemma_done_all(first, at);
    assert(first.map_values(|op: LayerOp| PrefillStep::All(op)) =~= head);
    let last = seq![
        LayerOp::OutProject,
        LayerOp::AddAttn,
        LayerOp::NormFfn,
        LayerOp::GateUp,
        LayerOp::Activate,
        LayerOp::DownProject,
        LayerOp::AddFfn,
    ];
    lemma_done_all(last, at);
    assert(last.map_values(|op: LayerOp| PrefillStep::All(op)) =~= prefill_tail());
    assert(all_done_at(prefill_steps(n), at) =~= decode_ops().drop_last());
}

/// A prefill takes every position of the prompt through the operations of decoding, each once
/// and in the same order, but for asking for the next layer; so each comes behind those whose
/// results it reads.
pub proof fn law_prefill_is_decoding(
    batch: usize,
    steps: Vec<PrefillStep>,
    ops: [LayerOp; 13],
    at: usize,
)
    requires
        batch < usize::MAX,
        call_ensures(prefill_batch, (batch,), steps),
        call_ensures(layer_ops, (), ops),
        at < batch,
    ensures
        all_done_at(steps@, at).push(LayerOp::PrefetchNext) == ops@,
        in_order(all_done_at(steps@, at)),
{
    lemma_prefill_done(batch as nat, at);
    law_decode_in_order(ops, LayerOp::PrefetchNext);
    let done = all_done_at(steps@, at);
    assert(done == decode_ops().drop_last());
    assert(done.push(LayerOp::PrefetchNext) =~= ops@);
    assert forall|i: int, j: int|
        0 <= i < done.len() && 0 <= j < done.len() && #[trigger] reads(done[i], done[j]) implies j
        < i by {
        assert(reads(ops@[i], ops@[j]));
    }
    assert forall|i: int, earlier: LayerOp|
        0 <= i < done.len() && #[trigger] reads(done[i], earlier) implies done.contains(earlier) by {
        assert(reads(ops@[i], earlier));
        let k = choose|k: int| 0 <= k < ops@.len() && ops@[k] == earlier;
        assert(done[k] == earlier);
    }
}

/// A prefill does nothing for positions beyond the prompt but what it does for all.
pub proof fn law_prefill_spares_others(batch: usize, steps: Vec<PrefillStep>, i: int)
    requires
        batch < usize::MAX,
        call_ensures(prefill_batch, (batch,), steps),
        0 <= i < steps@.len(),
    ensures
        steps@[i] matches PrefillStep::Save { pos } ==> pos < batch,
        steps@[i] matches PrefillStep::Attend { pos, seq_len } ==> pos < batch && seq_len == pos + 1,
{
    let s = prefill_steps(batch as nat);
    let head = seq![PrefillStep::All(LayerOp::NormAttn), PrefillStep::All(LayerOp::Project)];
    let n = batch as int;
    if i < 2 {
        assert(s[i] == head[i]);
    } else if i < 2 + n {
        assert(s[i] == saves(n as nat)[i - 2]);
    } else if i < 2 + n + n {
        assert(s[i] == attends(n as nat)[i - 2 - n]);
    } else {
        assert(s[i] == prefill_tail()[i - (2 + n + n)]);
    }
}

/// The weights of a layer are read by one operation each: those of attention before it, those
/// of the feed-forward part behind it, and every product by the matrices that it is named for.
pub proof fn law_weights_read_once(a: LayerOp, b: LayerOp, wa: Vec<LayerTensor>, wb: Vec<LayerTensor>)
    requires
        call_ensures(op_weights, (a,), wa),
        call_ensures(op_weights, (b,), wb),
    ensures
        a != b ==> forall|t: LayerTensor| #[trigger] wa@.contains(t) ==> !wb@.contains(t),
        wa@.contains(LayerTensor::AttnNorm) <==> a is NormAttn,
        wa@.contains(LayerTensor::FfnNorm) <==> a is NormFfn,
        wa@.contains(LayerTensor::Output) <==> a is OutProject,
        wa@.contains(LayerTensor::Down) <==> a is DownProject,
        a is Project <==> wa@.len() == 3,
        a is Project ==> wa@[0] is Q && wa@[1] is K && wa@[2] is V,
        a is GateUp <==> wa@.len() == 2,
        a is GateUp ==> wa@[0] is Gate && wa@[1] is Up,
{
    lemma_reader(a);
    lemma_reader(b);
    if a is NormAttn || a is NormFfn || a is OutProject || a is DownProject {
        assert(wa@.contains(wa@[0]));
    }
}

/// The operation that reads a tensor.
spec fn reader(t: LayerTensor) -> LayerOp {
    match t {
        LayerTensor::AttnNorm => LayerOp::NormAttn,
        LayerTensor::Q => LayerOp::Project,
        LayerTensor::K => LayerOp::Project,
        LayerTensor::V => LayerOp::Project,
        LayerTensor::Output => LayerOp::OutProject,
        LayerTensor::FfnNorm => LayerOp::NormFfn,
        LayerTensor::Gate => LayerOp::GateUp,
        LayerTensor::Up => LayerOp::GateUp,
        LayerTensor::Down => LayerOp::DownProject,
    }
}

proof fn lemma_reader(op: LayerOp)
    ensures
        forall|t: LayerTensor| #[trigger] weights_of(op).contains(t) ==> reader(t) == op,
{
}

/// More threads where the machine keeps its frequency, and one where it does not.
pub proof fn law_threads_by_coherence(throttling: bool, c: Coherence, r: usize)
    requires
        call_ensures(thread_count, (throttling, c), r),
    ensures
        throttling ==> r == 1,
        !throttling && c == Coherence::Low ==> r == 1,
        !throttling && c == Coherence::Middle ==> r == 2,
        !throttling && c == Coherence::High ==> r == 6,
{
}

/// The embeddings of tokens lie one behind the other in the table, the first one in front, and
/// each within it.
pub proof fn law_embeddings_in_a_row(
    token: usize,
    dim: usize,
    len: usize,
    r: Option<(usize, usize)>,
    next: Option<(usize, usize)>,
)
    requires
        call_ensures(embedding_range, (token, dim, len), r),
        token < usize::MAX,
        call_ensures(embedding_range, ((token + 1) as usize, dim, len), next),
    ensures
        token == 0 ==> (r is Some <==> dim <= len),
        token == 0 ==> (r matches Some((a, _)) ==> a == 0),
        r matches Some((a, b)) ==> b == a + dim && b <= len,
        r matches Some((_, b)) ==> (next matches Some((c, _)) ==> c == b),
        next is Some ==> r is Some,
{
    assert(0 * dim == 0 && (token + 1) * dim == token * dim + dim && token * dim >= 0)
        by (nonlinear_arith)
        requires
            token >= 0,
            dim >= 0,
    ;
}

/// The cache holds the whole context, and 2048 positions at least.
pub proof fn law_cache_holds_context(context: usize, r: usize)
    requires
        call_ensures(cache_length, (context,), r),
    ensures
        r >= context,
        r >= 2048,
        r == context || r == 2048,
{
}

/// A chat goes before a prompt; without either there is no text.
pub proof fn law_prompt_of_request(req: &InferenceRequest, r: String)
    requires
        call_ensures(InferenceRequest::prompt_text, (req,), r),
    ensures
        req.messages is None && req.prompt is None ==> r@.len() == 0,
        req.messages is None ==> (req.prompt matches Some(p) ==> r@ == p@),
        req.messages matches Some(m) ==> r@ == turns(m@) + "<|assistant|>\n"@,
{
}

/// A token that was sampled is the one that is decoded next, at the next position.
pub proof fn law_sampled_is_next(c: Course, token: usize)
    requires
        on_course(c),
        next_action(c) is Decode || next_action(c) == Action::Prefill,
    ensures
        ({
            let d = if next_action(c) == Action::Prefill {
                after_prefill(c, token)
            } else {
                after_sample(c, token, true)
            };
            &&& d.tokens == c.tokens.push(token)
            &&& d.generated == c.generated + 1
            &&& next_action(d) matches Action::Decode { token: t, pos } ==> t == token && pos + 1
                == d.tokens.len()
            &&& next_action(d) != Action::Prefill
        }),
{
}

/// A generation begins with the prompt and nothing generated: a prompt of more than one token is
/// prefilled, a prompt of one is decoded at the first position, unless nothing is asked for.
pub proof fn law_generation_begins(
    prompt: Vec<usize>,
    max_tokens: usize,
    g: Generation,
    tokens: &[usize],
    generated: usize,
    action: Action,
)
    requires
        prompt@.len() >= 1,
        max_tokens + prompt@.len() <= usize::MAX,
        call_ensures(Generation::start, (prompt, max_tokens), g),
        call_ensures(Generation::tokens, (&g,), tokens),
        call_ensures(Generation::generated, (&g,), generated),
        call_ensures(Generation::next, (&g,), action),
    ensures
        tokens@ == prompt@,
        generated == 0,
        g@.cache_pos == 0,
        prompt@.len() > 1 <==> action == Action::Prefill,
        prompt@.len() == 1 && max_tokens == 0 ==> action == Action::Finish,
        prompt@.len() == 1 && max_tokens > 0 ==> action == (Action::Decode {
            token: prompt@[0],
            pos: 0,
        }),
{
}

/// A token that was sampled and sent is one more of the tokens, and it is decoded next, at the next
/// position, as long as tokens are asked for; one that could not be sent ends the generation.
pub proof fn law_generation_goes_on(
    g: &mut Generation,
    at: usize,
    last: usize,
    token: usize,
    sent: bool,
    tokens: &[usize],
    generated: usize,
    action: Action,
)
    requires
        old(g).wf(),
        call_ensures(Generation::next, (&*old(g),), (Action::Decode { token: last, pos: at })),
        call_ensures(Generation::sample_done, (g, token, sent), ()),
        call_ensures(Generation::tokens, (&*final(g),), tokens),
        call_ensures(Generation::generated, (&*final(g),), generated),
        call_ensures(Generation::next, (&*final(g),), action),
    ensures
        tokens@ == old(g)@.tokens.push(token),
        last == old(g)@.tokens.last(),
        sent ==> generated == old(g)@.generated + 1 && final(g)@.cache_pos == at + 1,
        !sent ==> generated == old(g)@.generated && action == Action::Finish,
        sent && generated < old(g)@.max_tokens ==> action == (Action::Decode {
            token,
            pos: (at + 1) as usize,
        }),
        sent && generated >= old(g)@.max_tokens ==> action == Action::Finish,
{
    law_decode_position(old(g)@);
    law_decode_position(final(g)@);
}

/// The token sampled behind a prefilled prompt is decoded next, at the position behind the prompt,
/// as long as more than one token is asked for.
pub proof fn law_prefilled_goes_on(
    g: &mut Generation,
    token: usize,
    tokens: &[usize],
    generated: usize,
    action: Action,
)
    requires
        old(g).wf(),
        call_ensures(Generation::next, (&*old(g),), Action::Prefill),
        call_ensures(Generation::prefill_done, (g, token), ()),
        call_ensures(Generation::tokens, (&*final(g),), tokens),
        call_ensures(Generation::generated, (&*final(g),), generated),
        call_ensures(Generation::next, (&*final(g),), action),
    ensures
        tokens@ == old(g)@.prompt.push(token),
        generated == 1,
        final(g)@.cache_pos == old(g)@.prompt.len(),
        old(g)@.max_tokens > 1 ==> action == (Action::Decode {
            token,
            pos: old(g)@.prompt.len() as usize,
        }),
        old(g)@.max_tokens <= 1 ==> action == Action::Finish,
{
    let c = old(g)@;
    assert(c.tokens =~= c.prompt) by {
        assert(c.tokens.len() == c.prompt.len());
        assert(c.tokens =~= c.tokens.take(c.prompt.len() as int));
    }
}

} // verus!
