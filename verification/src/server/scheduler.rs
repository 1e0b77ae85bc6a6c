//! The order in which queued requests are served.

use vstd::multiset::Multiset;
use vstd::prelude::*;

use crate::engine::chat_template::ChatMessage;
use crate::engine::executor::InferenceRequest;

verus! {

/// A request as it comes in.
#[derive(Debug)]
pub struct QueuedRequest {
    pub id: u64,
    pub prompt: Option<String>,
    pub messages: Option<Vec<ChatMessage>>,
    pub user_tier: String,
    pub workload_type: String,
    pub max_tokens: usize,
    /// A single-precision pattern.
    pub temperature: u32,
    pub top_k: usize,
    /// A single-precision pattern.
    pub top_p: u32,
}

/// A request in the queue, with what its answers go to. The priority 0 is the highest.
#[derive(Debug)]
pub struct PriorityRequest<T> {
    pub priority: u8,
    pub created_at: u64,
    pub req: T,
}

/// Whether a request is served before another: by a higher priority, or by an earlier
/// arrival at the same one.
pub open spec fn ahead<T>(a: PriorityRequest<T>, b: PriorityRequest<T>) -> bool {
    a.priority < b.priority || (a.priority == b.priority && a.created_at < b.created_at)
}

/// The request that is served first.
pub open spec fn first<T>(q: Seq<PriorityRequest<T>>) -> int
    decreases q.len(),
{
    if q.len() <= 1 {
        0
    } else if ahead(q.last(), q[first(q.drop_last())]) {
        q.len() - 1
    } else {
        first(q.drop_last())
    }
}

/// The requests of a batch, in the order in which they are served.
pub open spec fn batch<T>(q: Seq<PriorityRequest<T>>, n: nat) -> Seq<PriorityRequest<T>>
    decreases n,
{
    if n == 0 || q.len() == 0 {
        Seq::empty()
    } else {
        seq![q[first(q)]] + batch(q.remove(first(q)), (n - 1) as nat)
    }
}

/// The requests that a batch leaves in the queue.
pub open spec fn after_batch<T>(q: Seq<PriorityRequest<T>>, n: nat) -> Seq<PriorityRequest<T>>
    decreases n,
{
    if n == 0 || q.len() == 0 {
        q
    } else {
        after_batch(q.remove(first(q)), (n - 1) as nat)
    }
}

/// The queue of requests.
#[derive(Debug)]
pub struct PriorityQueueScheduler<T> {
    pub queue: Vec<PriorityRequest<T>>,
    pub max_batch_size: usize,
}

impl<T> PriorityQueueScheduler<T> {
    /// An empty queue.
    pub fn new(max_batch_size: usize) -> (r: PriorityQueueScheduler<T>)
        ensures
            r.queue@.len() == 0,
            r.max_batch_size == max_batch_size,
    {
        PriorityQueueScheduler { queue: Vec::new(), max_batch_size }
    }

    /// Takes in a request with the priority that it was given.
    pub fn submit(&mut self, priority: u8, created_at: u64, req: T)
        ensures
            final(self).queue@ == old(self).queue@.push(
                (PriorityRequest { priority, created_at, req }),
            ),
            final(self).max_batch_size == old(self).max_batch_size,
    {
        self.queue.push(PriorityRequest { priority, created_at, req });
    }

    /// How many requests are waiting.
    pub fn len(&self) -> (r: usize)
        ensures
            r == self.queue@.len(),
    {
        self.queue.len()
    }

    pub fn is_empty(&self) -> (r: bool)
        ensures
            r == (self.queue@.len() == 0),
    {
        self.queue.len() == 0
    }

    fn find_first(&self) -> (r: usize)
        requires
            self.queue@.len() > 0,
        ensures
            r == first(self.queue@),
            r < self.queue@.len(),
    {
        let mut best: usize = 0;
        let mut i: usize = 1;
        while i < self.queue.len()
            invariant
                1 <= i <= self.queue@.len(),
                best < i,
                best == first(self.queue@.take(i as int)),
            decreases self.queue@.len() - i,
        {
            assert(self.queue@.take(i + 1).drop_last() =~= self.queue@.take(i as int));
            assert(self.queue@.take(i + 1).last() == self.queue@[i as int]);
            assert(self.queue@.take(i as int)[best as int] == self.queue@[best as int]);
            let a = &self.queue[i];
            let b = &self.queue[best];
            if a.priority < b.priority || (a.priority == b.priority && a.created_at
                < b.created_at) {
                best = i;
            }
            i += 1;
        }
        assert(self.queue@.take(i as int) =~= self.queue@);
        best
    }

    /// Takes out the request that is served first.
    pub fn pop(&mut self) -> (r: Option<PriorityRequest<T>>)
        ensures
            final(self).max_batch_size == old(self).max_batch_size,
            match r {
                Some(x) => {
                    &&& old(self).queue@.len() > 0
                    &&& x == old(self).queue@[first(old(self).queue@)]
                    &&& final(self).queue@ == old(self).queue@.remove(first(old(self).queue@))
                },
                None => {
                    &&& old(self).queue@.len() == 0
                    &&& final(self).queue@ == old(self).queue@
                },
            },
    {
        if self.queue.len() == 0 {
            None
        } else {
            let i: usize = self.find_first();
            Some(self.queue.remove(i))
        }
    }

    /// Takes out the requests of a batch, at most as many as it may hold, in the order in
    /// which they are served.
    pub fn next_batch(&mut self) -> (r: Vec<PriorityRequest<T>>)
        ensures
            r@ == batch(old(self).queue@, old(self).max_batch_size as nat),
            final(self).queue@ == after_batch(old(self).queue@, old(self).max_batch_size as nat),
            final(self).max_batch_size == old(self).max_batch_size,
    {
        let mut out: Vec<PriorityRequest<T>> = Vec::new();
        let ghost q = self.queue@;
        let ghost n = self.max_batch_size as nat;
        assert(out@ + batch(self.queue@, n) =~= batch(q, n));
        while out.len() < self.max_batch_size
            invariant
                q == old(self).queue@,
                n == old(self).max_batch_size,
                self.max_batch_size == n,
                out@.len() <= n,
                out@ + batch(self.queue@, (n - out@.len()) as nat) == batch(q, n),
                after_batch(self.queue@, (n - out@.len()) as nat) == after_batch(q, n),
            decreases n - out@.len(),
        {
            let ghost before = out@;
            let ghost left = self.queue@;
            match self.pop() {
                Some(x) => {
                    out.push(x);
                    assert(out@ + batch(self.queue@, (n - out@.len()) as nat) =~= before + (seq![x]
                        + batch(left.remove(first(left)), (n - before.len() - 1) as nat)));
                },
                None => {
                    assert(out@ =~= out@ + batch(self.queue@, (n - out@.len()) as nat));
                    return out;
                },
            }
        }
        assert(out@ =~= out@ + batch(self.queue@, 0));
        out
    }
}

impl QueuedRequest {
    /// What is generated for the request.
    pub fn into_inference(self) -> (r: InferenceRequest)
        ensures
            r.prompt == self.prompt,
            r.messages == self.messages,
            r.max_tokens == self.max_tokens,
            r.temperature == self.temperature,
            r.top_k == self.top_k,
            r.top_p == self.top_p,
    {
        InferenceRequest {
            prompt: self.prompt,
            messages: self.messages,
            max_tokens: self.max_tokens,
            temperature: self.temperature,
            top_k: self.top_k,
            top_p: self.top_p,
        }
    }
}

/// No request in a queue is ahead of the first, and the first is ahead of all that came in
/// before it.
pub proof fn law_first<T>(q: Seq<PriorityRequest<T>>)
    requires
        q.len() > 0,
    ensures
        0 <= first(q) < q.len(),
        forall|i: int| 0 <= i < q.len() ==> !ahead(#[trigger] q[i], q[first(q)]),
        forall|i: int| 0 <= i < first(q) ==> ahead(q[first(q)], #[trigger] q[i]),
    decreases q.len(),
{
    if q.len() > 1 {
        let d = q.drop_last();
        law_first(d);
        let b = first(d);
        assert(d[b] == q[b]);
        assert forall|i: int| 0 <= i < q.len() implies !ahead(#[trigger] q[i], q[first(q)]) by {
            if i < q.len() - 1 {
                assert(d[i] == q[i]);
                assert(!ahead(d[i], d[b]));
            }
        }
        assert forall|i: int| 0 <= i < first(q) implies ahead(q[first(q)], #[trigger] q[i]) by {
            assert(d[i] == q[i]);
            assert(!ahead(d[i], d[b]));
            if first(q) == b {
                assert(ahead(d[b], d[i]));
            }
        }
    }
}

/// A batch is as large as it may be, loses and invents no request, comes in order, and leaves
/// none that is ahead of one that it takes.
pub proof fn law_batch<T>(q: Seq<PriorityRequest<T>>, n: nat)
    ensures
        batch(q, n).len() == if n <= q.len() {
            n
        } else {
            q.len()
        },
        batch(q, n).to_multiset().add(after_batch(q, n).to_multiset()) =~= q.to_multiset(),
        forall|i: int, j: int|
            0 <= i < j < batch(q, n).len() ==> !ahead(
                #[trigger] batch(q, n)[j],
                #[trigger] batch(q, n)[i],
            ),
        forall|i: int, j: int|
            0 <= i < batch(q, n).len() && 0 <= j < after_batch(q, n).len() ==> !ahead(
                #[trigger] after_batch(q, n)[j],
                #[trigger] batch(q, n)[i],
            ),
    decreases n,
{
    broadcast use vstd::seq_lib::group_to_multiset_ensures;

    if n == 0 || q.len() == 0 {
        assert(Seq::<PriorityRequest<T>>::empty().to_multiset() =~= Multiset::empty());
    } else {
        law_first(q);
        let f = first(q);
        let x = q[f];
        let rest = q.remove(f);
        let m = (n - 1) as nat;
        law_batch(rest, m);
        let b = batch(rest, m);
        let all = batch(q, n);
        let left = after_batch(q, n);
        assert(all == seq![x] + b);
        assert(left == after_batch(rest, m));
        // nothing in the rest is ahead of the first
        assert forall|y: PriorityRequest<T>| rest.to_multiset().count(y) > 0 implies !ahead(
            y,
            x,
        ) by {
            assert(rest.contains(y));
            let k = choose|k: int| 0 <= k < rest.len() && rest[k] == y;
            if k < f {
                assert(q[k] == y);
            } else {
                assert(q[k + 1] == y);
            }
        }
        assert(q.to_multiset() =~= rest.to_multiset().insert(x)) by {
            vstd::seq_lib::to_multiset_remove(q, f);
        }
        assert(all.to_multiset() =~= b.to_multiset().insert(x)) by {
            vstd::seq_lib::lemma_multiset_commutative(seq![x], b);
            assert(seq![x].to_multiset() =~= Multiset::singleton(x)) by {
                assert(seq![x] =~= Seq::<PriorityRequest<T>>::empty().push(x));
            }
        }
        assert forall|i: int, j: int| 0 <= i < j < all.len() implies !ahead(
            #[trigger] all[j],
            #[trigger] all[i],
        ) by {
            assert(all[j] == b[j - 1]);
            if i == 0 {
                assert(b.to_multiset().count(b[j - 1]) > 0) by {
                    assert(b.contains(b[j - 1]));
                }
                assert(rest.to_multiset().count(b[j - 1]) > 0);
            } else {
                assert(all[i] == b[i - 1]);
            }
        }
        assert forall|i: int, j: int|
            0 <= i < all.len() && 0 <= j < left.len() implies !ahead(
            #[trigger] left[j],
            #[trigger] all[i],
        ) by {
            if i == 0 {
                assert(left.to_multiset().count(left[j]) > 0) by {
                    assert(left.contains(left[j]));
                }
                assert(rest.to_multiset().count(left[j]) > 0);
            } else {
                assert(all[i] == b[i - 1]);
            }
        }
    }
}

/// What is taken from a queue is the most urgent request, the one with the least number, and of
/// those the one that came in first; the others stay.
pub proof fn law_most_urgent_first<T>(
    q: &mut PriorityQueueScheduler<T>,
    r: Option<PriorityRequest<T>>,
)
    requires
        call_ensures(PriorityQueueScheduler::<T>::pop, (q,), r),
    ensures
        r is None <==> old(q).queue@.len() == 0,
        r matches Some(x) ==> {
            &&& old(q).queue@.contains(x)
            &&& forall|i: int|
                0 <= i < old(q).queue@.len() ==> {
                    ||| x.priority < (#[trigger] old(q).queue@[i]).priority
                    ||| x.priority == old(q).queue@[i].priority && x.created_at <= old(q).queue@[i].created_at
                }
            &&& final(q).queue@.to_multiset().insert(x) =~= old(q).queue@.to_multiset()
        },
{
    broadcast use vstd::seq_lib::group_to_multiset_ensures;

    let s = old(q).queue@;
    if s.len() > 0 {
        law_first(s);
        assert(s.contains(s[first(s)]));
        assert(!ahead(s[first(s)], s[first(s)]));
        assert forall|i: int| 0 <= i < s.len() implies {
            ||| s[first(s)].priority < (#[trigger] s[i]).priority
            ||| s[first(s)].priority == s[i].priority && s[first(s)].created_at <= s[i].created_at
        } by {
            assert(!ahead(s[i], s[first(s)]));
        }
    }
}

/// A batch takes as many requests as it may, in the order of their urgency and of their coming in,
/// and none that stays in the queue is more urgent than one that it takes.
pub proof fn law_batch_by_urgency<T>(
    q: &mut PriorityQueueScheduler<T>,
    r: Vec<PriorityRequest<T>>,
)
    requires
        call_ensures(PriorityQueueScheduler::<T>::next_batch, (q,), r),
    ensures
        r@.len() <= old(q).max_batch_size,
        r@.len() == old(q).max_batch_size || r@.len() == old(q).queue@.len(),
        r@.to_multiset().add(final(q).queue@.to_multiset()) =~= old(q).queue@.to_multiset(),
        forall|i: int, j: int|
            0 <= i < j < r@.len() ==> {
                ||| (#[trigger] r@[i]).priority < (#[trigger] r@[j]).priority
                ||| r@[i].priority == r@[j].priority && r@[i].created_at <= r@[j].created_at
            },
        forall|i: int, j: int|
            0 <= i < r@.len() && 0 <= j < final(q).queue@.len() ==> {
                ||| (#[trigger] r@[i]).priority < (#[trigger] final(q).queue@[j]).priority
                ||| r@[i].priority == final(q).queue@[j].priority && r@[i].created_at <= final(q).queue@[j].created_at
            },
{
    let n = old(q).max_batch_size as nat;
    let s = old(q).queue@;
    law_batch(s, n);
    assert forall|i: int, j: int| 0 <= i < j < r@.len() implies {
        ||| (#[trigger] r@[i]).priority < (#[trigger] r@[j]).priority
        ||| r@[i].priority == r@[j].priority && r@[i].created_at <= r@[j].created_at
    } by {
        assert(!ahead(batch(s, n)[j], batch(s, n)[i]));
    }
    assert forall|i: int, j: int| 0 <= i < r@.len() && 0 <= j < final(q).queue@.len() implies {
        ||| (#[trigger] r@[i]).priority < (#[trigger] final(q).queue@[j]).priority
        ||| r@[i].priority == final(q).queue@[j].priority && r@[i].created_at <= final(q).queue@[j].created_at
    } by {
        assert(!ahead(after_batch(s, n)[j], batch(s, n)[i]));
    }
}

} // verus!
