//! Errors that the capabilities report, with JSON-RPC error codes.
use vstd::prelude::*;

use crate::text::{decimal, push_decimal, push_str, to_string};

verus! {

/// A JSON-RPC error: a code and a message.
#[derive(Debug)]
pub struct CapabilityError {
    pub code: i32,
    pub message: String,
}

/// JSON-RPC code of an internal error.
pub const INTERNAL_ERROR: i32 = -32603;

/// JSON-RPC code of invalid parameters.
pub const INVALID_PARAMS: i32 = -32602;

/// Creates a JSON-RPC error with a custom error code and message
pub fn json_error(code: i32, msg: &str) -> (r: CapabilityError)
    ensures
        r.code == code,
        r.message@ == msg@,
{
    CapabilityError { code, message: to_string(msg) }
}

/// Creates a JSON-RPC internal error (-32603)
/// Use for server-side errors like I/O failures, parsing errors, etc.
pub fn internal_error(msg: &str) -> (r: CapabilityError)
    ensures
        r.code == INTERNAL_ERROR,
        r.message@ == msg@,
{
    json_error(INTERNAL_ERROR, msg)
}

/// Creates a JSON-RPC invalid params error (-32602)
/// Use for invalid input parameters, paths outside bounds, etc.
pub fn invalid_params(msg: &str) -> (r: CapabilityError)
    ensures
        r.code == INVALID_PARAMS,
        r.message@ == msg@,
{
    json_error(INVALID_PARAMS, msg)
}


/// `n` in decimal, with a minus sign when negative.
pub open spec fn signed_decimal(n: int) -> Seq<char> {
    if n < 0 {
        seq!['-'] + decimal((-n) as nat)
    } else {
        decimal(n as nat)
    }
}

/// The error as text: its code, a colon, and its message.
pub open spec fn error_text(code: i32, message: Seq<char>) -> Seq<char> {
    signed_decimal(code as int) + seq![':', ' '] + message
}

impl CapabilityError {
    /// The error as text (`code: message`).
    pub fn text(&self) -> (r: String)
        ensures
            r@ == error_text(self.code, self.message@),
    {
        let mut s = String::new();
        if self.code < 0 {
            s.push('-');
            let m: i64 = -(self.code as i64);
            push_decimal(&mut s, m as u128);
        } else {
            push_decimal(&mut s, self.code as u128);
        }
        push_str(&mut s, ": ");
        push_str(&mut s, self.message.as_str());
        proof {
            reveal_strlit(": ");
        }
        assert(s@ =~= error_text(self.code, self.message@));
        s
    }
}

} // verus!
