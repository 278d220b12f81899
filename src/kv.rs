//! What the key-value services' error replies mean.
use vstd::prelude::*;
use crate::message::{GanError, KEY_NOT_EXIST_CODE, PRECONDITION_FAILED_CODE};

verus! {

/// The error that a key-value `error` reply stands for.
pub open spec fn rpc_error_spec(code: u8, text: String) -> GanError {
    if code == KEY_NOT_EXIST_CODE {
        GanError::KeyNotExist
    } else if code == PRECONDITION_FAILED_CODE {
        GanError::PreconditionFailed
    } else {
        GanError::Rpc { code, text }
    }
}

/// Turns a key-value `error` reply into a typed error: a missing key and a
/// failed compare-and-swap have errors of their own.
pub fn rpc_error(code: u8, text: String) -> (r: GanError)
    ensures
        r == rpc_error_spec(code, text),
{
    if code == KEY_NOT_EXIST_CODE {
        GanError::KeyNotExist
    } else if code == PRECONDITION_FAILED_CODE {
        GanError::PreconditionFailed
    } else {
        GanError::Rpc { code, text }
    }
}

} // verus!
