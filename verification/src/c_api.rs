//! The rules of the interface for C programs.

use crate::error::Error;
use vstd::prelude::*;

verus! {

/// It worked.
pub const AETHER_OK: i32 = 0;

/// It failed.
pub const AETHER_ERR: i32 = -1;

/// Time ran out; the call is to be repeated.
pub const AETHER_TIMEOUT: i32 = -2;

/// The status of a step without a time budget.
pub fn plain_status(outcome: &Result<(), Error>) -> (s: i32)
    ensures
        s == (if outcome is Ok {
            AETHER_OK
        } else {
            AETHER_ERR
        }),
{
    match outcome {
        Ok(_) => AETHER_OK,
        Err(_) => AETHER_ERR,
    }
}

/// The status of a step with a time budget.
pub fn budgeted_status(outcome: &Result<(), Error>) -> (s: i32)
    ensures
        s == (match *outcome {
            Ok(_) => AETHER_OK,
            Err(Error::BudgetExceeded) => AETHER_TIMEOUT,
            Err(_) => AETHER_ERR,
        }),
{
    match outcome {
        Ok(_) => AETHER_OK,
        Err(Error::BudgetExceeded) => AETHER_TIMEOUT,
        Err(_) => AETHER_ERR,
    }
}

/// How many layers are kept at hand: as many as asked for, and 32 where less
/// than nothing is asked for. Zero leaves the number to the runner.
pub fn hot_layers(max_hot: i32) -> (n: Option<usize>)
    ensures
        n == (if max_hot == 0 {
            None
        } else if max_hot < 0 {
            Some(32usize)
        } else {
            Some(max_hot as usize)
        }),
{
    if max_hot == 0 {
        None
    } else if max_hot < 0 {
        Some(32)
    } else {
        Some(max_hot as usize)
    }
}

/// The length of the context: what the model allows, 4096 at most.
pub fn context_len(max_seq_len: usize) -> (n: i32)
    ensures
        n == (if max_seq_len < 4096 {
            max_seq_len as int
        } else {
            4096
        }),
{
    if max_seq_len < 4096 {
        max_seq_len as i32
    } else {
        4096
    }
}

/// Tokens as they are handed out: their number, then the tokens, each as a
/// signed number of the same bits.
pub open spec fn packed(tokens: Seq<u32>) -> Seq<i32> {
    Seq::new(
        tokens.len() + 1,
        |i: int|
            if i == 0 {
                tokens.len() as i32
            } else {
                tokens[i - 1] as i32
            },
    )
}

/// Tokens as they are handed out.
pub fn pack_tokens(tokens: &Vec<u32>) -> (out: Vec<i32>)
    ensures
        out@ == packed(tokens@),
{
    let n: usize = tokens.len();
    let mut out: Vec<i32> = Vec::new();
    out.push(#[verifier::truncate] (n as i32));
    for i in 0..n
        invariant
            n == tokens@.len(),
            out@.len() == i + 1,
            forall|j: int| 0 <= j <= i ==> #[trigger] out@[j] == packed(tokens@)[j],
    {
        out.push(#[verifier::truncate] (tokens[i] as i32));
    }
    proof {
        assert(out@ =~= packed(tokens@));
    }
    out
}

/// How many numbers a block of tokens takes, by the number in front of it.
pub fn packed_len(header: i32) -> (n: Option<usize>)
    ensures
        n == (if 0 <= header < usize::MAX {
            Some((header + 1) as usize)
        } else {
            None::<usize>
        }),
{
    if header < 0 {
        return None;
    }
    let n: usize = header as usize;
    if n == usize::MAX {
        return None;
    }
    Some(n + 1)
}

/// The number in front of a block of tokens tells how long the block is, as
/// long as it can be told by a signed number.
pub proof fn law_block_len(tokens: Seq<u32>)
    requires
        tokens.len() <= i32::MAX,
    ensures
        packed(tokens)[0] + 1 == packed(tokens).len(),
{
}

} // verus!
