//! What becomes of the answers of a policy script.

use vstd::prelude::*;

verus! {

/// The batch size where the script does not say.
pub const DEFAULT_BATCH: usize = 512;

/// `n` brought into a range.
pub open spec fn clamped(n: int, lo: int, hi: int) -> int {
    if n < lo {
        lo
    } else if n > hi {
        hi
    } else {
        n
    }
}

/// The number of threads: the script's answer, from 1 to 6, or the fallback where the script
/// does not answer.
pub fn adapt_threads(answer: Option<i64>, fallback_threads: usize) -> (r: usize)
    ensures
        r == (match answer {
            Some(n) => clamped(n as int, 1, 6),
            None => fallback_threads as int,
        }),
{
    match answer {
        Some(n) => if n < 1 {
            1
        } else if n > 6 {
            6
        } else {
            n as usize
        },
        None => fallback_threads,
    }
}

/// Whether a layer is left out: the script's answer, or no.
pub fn should_skip_layer(answer: Option<bool>) -> (r: bool)
    ensures
        r == (answer == Some(true)),
{
    match answer {
        Some(skip) => skip,
        None => false,
    }
}

/// The batch size: the script's answer, from 8 to 2048, or 512 where the script does not
/// answer.
pub fn suggested_batch_size(answer: Option<i64>) -> (r: usize)
    ensures
        r == (match answer {
            Some(n) => clamped(n as int, 8, 2048),
            None => DEFAULT_BATCH as int,
        }),
{
    match answer {
        Some(n) => if n < 8 {
            8
        } else if n > 2048 {
            2048
        } else {
            n as usize
        },
        None => DEFAULT_BATCH,
    }
}

/// Whether a script is to be loaded again: where it was changed after the last load.
pub fn should_reload(modified_ns: i64, last_load_ns: i64) -> (r: bool)
    ensures
        r == (modified_ns > last_load_ns),
{
    modified_ns > last_load_ns
}

/// The number of threads is what the answer says from 1 to 6, and beyond that the nearest of
/// these.
pub proof fn law_threads_nearest(answer: i64, fallback: usize, r: usize)
    requires
        call_ensures(adapt_threads, (Some(answer), fallback), r),
    ensures
        1 <= answer <= 6 ==> r == answer,
        answer < 1 ==> r == 1,
        answer > 6 ==> r == 6,
{
}

/// Without an answer the number of threads is the one at hand, no layer is skipped, and a batch
/// has 512 tokens.
pub proof fn law_without_answer(fallback: usize, t: usize, s: bool, b: usize)
    requires
        call_ensures(adapt_threads, (None::<i64>, fallback), t),
        call_ensures(should_skip_layer, (None::<bool>,), s),
        call_ensures(suggested_batch_size, (None::<i64>,), b),
    ensures
        t == fallback,
        !s,
        b == 512,
{
}

/// An answer decides: a layer is skipped where it says so, and a batch is what it says from 8 to
/// 2048.
pub proof fn law_answer_decides(yes: bool, s: bool, n: i64, b: usize)
    requires
        call_ensures(should_skip_layer, (Some(yes),), s),
        call_ensures(suggested_batch_size, (Some(n),), b),
    ensures
        s == yes,
        8 <= n <= 2048 ==> b == n,
        n < 8 ==> b == 8,
        n > 2048 ==> b == 2048,
{
}

/// A script is loaded again only where it is newer than its last load, so never twice for one
/// change.
pub proof fn law_reload_once(modified: i64, last: i64, r: bool, again: bool)
    requires
        call_ensures(should_reload, (modified, last), r),
        call_ensures(should_reload, (modified, modified), again),
    ensures
        r <==> last < modified,
        !again,
{
}

} // verus!
