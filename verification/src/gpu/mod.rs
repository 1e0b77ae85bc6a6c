//! The side of the GPU bridge that decides: what a return code means, which sizes fit
//! together, and how layers are streamed.

use vstd::prelude::*;

use crate::text::decimal;
use crate::text::push_decimal;

pub mod streaming;

verus! {

/// An error of the GPU bridge.
#[derive(Debug)]
pub enum GpuError {
    NotAvailable(String),
    LibLoad(String),
    Symbol(String),
    KernelError(i32),
}

/// A number with its sign.
pub open spec fn signed_decimal(n: int) -> Seq<char> {
    if n < 0 {
        "-"@ + decimal((-n) as nat)
    } else {
        decimal(n as nat)
    }
}

impl GpuError {
    pub open spec fn spec_message(self) -> Seq<char> {
        match self {
            GpuError::NotAvailable(s) => "CUDA/GPU not available: "@ + s@,
            GpuError::LibLoad(s) => "Library load failed: "@ + s@,
            GpuError::Symbol(s) => "Symbol lookup failed: "@ + s@,
            GpuError::KernelError(c) => "GPU kernel returned error code "@ + signed_decimal(
                c as int,
            ),
        }
    }

    /// The message shown to the user.
    pub fn message(&self) -> (r: String)
        ensures
            r@ == self.spec_message(),
    {
        let mut out = String::new();
        match self {
            GpuError::NotAvailable(s) => {
                out.append("CUDA/GPU not available: ");
                out.append(s.as_str());
            },
            GpuError::LibLoad(s) => {
                out.append("Library load failed: ");
                out.append(s.as_str());
            },
            GpuError::Symbol(s) => {
                out.append("Symbol lookup failed: ");
                out.append(s.as_str());
            },
            GpuError::KernelError(c) => {
                out.append("GPU kernel returned error code ");
                let v: i64 = *c as i64;
                if v < 0 {
                    out.append("-");
                    push_decimal(&mut out, (-v) as u64);
                } else {
                    push_decimal(&mut out, v as u64);
                }
            },
        }
        assert(out@ =~= self.spec_message());
        out
    }
}

/// What a return code means: zero is success.
pub fn check_code(ret: i32) -> (r: Result<(), GpuError>)
    ensures
        match r {
            Ok(()) => ret == 0,
            Err(e) => ret != 0 && e == GpuError::KernelError(ret),
        },
{
    if ret != 0 {
        Err(GpuError::KernelError(ret))
    } else {
        Ok(())
    }
}

/// What a returned handle means: null is a failure without a code.
pub fn check_handle(is_null: bool) -> (r: Result<(), GpuError>)
    ensures
        match r {
            Ok(()) => !is_null,
            Err(e) => is_null && (e matches GpuError::KernelError(c) && c == -1),
        },
{
    if is_null {
        Err(GpuError::KernelError(-1))
    } else {
        Ok(())
    }
}

/// Whether the operands of attention fit together.
pub fn attention_sizes_match(
    q: usize,
    k: usize,
    v: usize,
    out: usize,
    n_heads: usize,
    n_kv_heads: usize,
    seq_len: usize,
    head_dim: usize,
) -> (r: bool)
    ensures
        r == (q == n_heads * head_dim && k == n_kv_heads * seq_len * head_dim && v == n_kv_heads
            * seq_len * head_dim && out == n_heads * head_dim),
{
    product_is(n_heads, head_dim, 1, q) && product_is(n_kv_heads, seq_len, head_dim, k)
        && product_is(n_kv_heads, seq_len, head_dim, v) && product_is(n_heads, head_dim, 1, out)
}

fn product_is(a: usize, b: usize, c: usize, n: usize) -> (r: bool)
    ensures
        r == (a * b * c == n),
{
    match a.checked_mul(b) {
        Some(ab) => match ab.checked_mul(c) {
            Some(abc) => abc == n,
            None => false,
        },
        None => {
            if c == 0 {
                assert(a * b * c == 0) by (nonlinear_arith)
                    requires
                        c == 0,
                ;
                n == 0
            } else {
                assert(a * b * c >= a * b) by (nonlinear_arith)
                    requires
                        c >= 1,
                        a >= 0,
                        b >= 0,
                ;
                false
            }
        },
    }
}

/// The sizes of an attention match where the query and the result hold a head for each query head,
/// and the keys and the values a head for each key head and position.
pub proof fn law_attention_sizes(
    q: usize,
    k: usize,
    v: usize,
    out: usize,
    n_heads: usize,
    n_kv_heads: usize,
    seq_len: usize,
    head_dim: usize,
    r: bool,
)
    requires
        call_ensures(
            attention_sizes_match,
            (q, k, v, out, n_heads, n_kv_heads, seq_len, head_dim),
            r,
        ),
    ensures
        r ==> q == out && k == v,
        r ==> k * n_heads == (n_kv_heads * seq_len) * q,
        q == out && k == v && q == head_dim * n_heads && k == head_dim * (n_kv_heads * seq_len)
            <==> r,
{
    let p = n_kv_heads * seq_len;
    assert(p * head_dim == head_dim * p) by (nonlinear_arith);
    assert(n_heads * head_dim == head_dim * n_heads) by (nonlinear_arith);
    assert((p * head_dim) * n_heads == p * (n_heads * head_dim)) by (nonlinear_arith);
}

/// What a device returned is passed on: nothing is wrong with a zero, every other number is the
/// code of the error, and a handle that is none is the error -1.
pub proof fn law_codes_passed_on(
    ret: i32,
    r: Result<(), GpuError>,
    is_null: bool,
    h: Result<(), GpuError>,
    text: String,
    digits: String,
)
    requires
        call_ensures(check_code, (ret,), r),
        call_ensures(check_handle, (is_null,), h),
        ret >= 0,
        r is Err,
        call_ensures(GpuError::message, (&r->Err_0,), text),
        call_ensures(crate::text::decimal_string, (ret as u64,), digits),
    ensures
        ret != 0,
        r->Err_0 == GpuError::KernelError(ret),
        h is Ok <==> !is_null,
        h matches Err(e) ==> (e matches GpuError::KernelError(c) && c + 1 == 0),
        text@ == "GPU kernel returned error code "@ + digits@,
{
}

/// The messages of the errors of a device say which of them it is.
pub proof fn law_device_messages(e: GpuError, s: String)
    requires
        call_ensures(GpuError::message, (&e,), s),
    ensures
        e matches GpuError::NotAvailable(t) ==> s@ == "CUDA/GPU not available: "@ + t@,
        e matches GpuError::LibLoad(t) ==> s@ == "Library load failed: "@ + t@,
        e matches GpuError::Symbol(t) ==> s@ == "Symbol lookup failed: "@ + t@,
{
}

} // verus!
