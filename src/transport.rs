//! What a transport's read hands the engine.
use vstd::prelude::*;

use crate::error::RpcError;

verus! {

/// Turns one read of a framed stream into a frame or an error: the end of the
/// stream is the distinct `Closed` error, never an empty frame, and a failed
/// read is a transport error carrying its description.
pub fn frame_from_read(item: Option<Result<String, String>>) -> (r: Result<String, RpcError>)
    ensures
        item is None ==> r matches Err(RpcError::Closed),
        item matches Some(Ok(m)) ==> r == Ok::<String, RpcError>(m),
        item matches Some(Err(e)) ==> r == Err::<String, RpcError>(RpcError::Transport(e)),
{
    match item {
        None => Err(RpcError::Closed),
        Some(Ok(m)) => Ok(m),
        Some(Err(e)) => Err(RpcError::Transport(e)),
    }
}

} // verus!
