//! The decisions and encodings around the runtime's intrinsics: how arguments are
//! handed to the host and how the host's answers are read back.

use vstd::prelude::*;
use crate::types::{Address, H256};

verus! {

/// Generic wasm error: the intrinsic reported a failure.
#[derive(Debug, Clone, Copy, PartialEq, Eq)]
pub struct Error;

/// The most topics a log entry may carry; the host traps on more.
pub const MAX_LOG_TOPICS: usize = 4;

/// `2^64`, the number of distinct 64-bit patterns.
pub open spec fn two_pow_64() -> int {
    0x1_0000_0000_0000_0000int
}

/// The signed 64-bit value with the same bits as the unsigned `x`.
pub open spec fn host_i64_of(x: u64) -> int {
    if x <= i64::MAX {
        x as int
    } else {
        x as int - two_pow_64()
    }
}

/// The unsigned 64-bit value with the same bits as the signed `x`.
pub open spec fn u64_of_host(x: i64) -> int {
    if x >= 0 {
        x as int
    } else {
        x as int + two_pow_64()
    }
}

/// Reinterprets an unsigned 64-bit quantity (a gas amount, a block number) as the
/// signed integer that the host's ABI takes.
pub fn u64_to_host(x: u64) -> (out: i64)
    ensures
        out as int == host_i64_of(x),
{
    assert((x as i64) as int == (if x <= 0x7fff_ffff_ffff_ffff { x as int } else {
        x as int - 0x1_0000_0000_0000_0000int
    })) by (bit_vector);
    x as i64
}

/// Reinterprets a signed 64-bit answer of the host (a timestamp, a block number,
/// the gas left) as the unsigned quantity it stands for.
pub fn u64_from_host(x: i64) -> (out: u64)
    ensures
        out as int == u64_of_host(x),
{
    assert((x as u64) as int == (if x >= 0 { x as int } else {
        x as int + 0x1_0000_0000_0000_0000int
    })) by (bit_vector);
    x as u64
}

/// The two reinterpretations undo each other: a quantity handed to the host and read
/// back is unchanged, and so is a host answer handed back to the host.
pub proof fn lemma_host_i64_round_trip(x: u64, y: i64)
    ensures
        u64_of_host(host_i64_of(x) as i64) == x,
        host_i64_of(u64_of_host(y) as u64) == y,
{
}

/// The 32-bit length that the host's ABI takes for a buffer of `len` bytes: the
/// length modulo `2^32`.
pub fn len_to_host(len: usize) -> (out: u32)
    ensures
        out as int == len as int % 0x1_0000_0000,
{
    assert((len as u32) as int == len as int % 0x1_0000_0000) by (bit_vector);
    len as u32
}

/// The outcome of a message call (`call`, `call_code`, `static_call`) from the
/// host's status code: zero is success, anything else a failed, halted execution.
pub fn call_outcome(status: i32) -> (out: Result<(), Error>)
    ensures
        out == (if status == 0 {
            Ok::<(), Error>(())
        } else {
            Err::<(), Error>(Error)
        }),
{
    if status == 0 {
        Ok(())
    } else {
        Err(Error)
    }
}

/// The outcome of an account creation (`create`, `create2`) from the host's status
/// code and the address it wrote: the address on success, else an error because
/// the constructor failed.
pub fn create_outcome(status: i32, created: Address) -> (out: Result<Address, Error>)
    ensures
        out == (if status == 0 {
            Ok::<Address, Error>(created)
        } else {
            Err::<Address, Error>(Error)
        }),
{
    if status == 0 {
        Ok(created)
    } else {
        Err(Error)
    }
}

/// The bytes of the topics `ts`, one after another.
pub open spec fn topics_bytes(ts: Seq<H256>) -> Seq<u8>
    decreases ts.len(),
{
    if ts.len() == 0 {
        Seq::empty()
    } else {
        topics_bytes(ts.drop_last()) + ts.last().0@
    }
}

/// The topics' bytes lie one after another in their own order: byte `j` of topic `k`
/// is at position `32 * k + j`.
pub proof fn lemma_topics_bytes_layout(ts: Seq<H256>)
    ensures
        topics_bytes(ts).len() == 32 * ts.len(),
        forall|k: int, j: int|
            0 <= k < ts.len() && 0 <= j < 32 ==> #[trigger] topics_bytes(ts)[32 * k + j]
                == #[trigger] ts[k].0@[j],
    decreases ts.len(),
{
    if ts.len() > 0 {
        let init = ts.drop_last();
        lemma_topics_bytes_layout(init);
        let a = topics_bytes(init);
        let last = ts.last().0@;
        assert(topics_bytes(ts) == a + last);
        assert forall|k: int, j: int| 0 <= k < ts.len() && 0 <= j < 32 implies #[trigger] topics_bytes(
            ts,
        )[32 * k + j] == #[trigger] ts[k].0@[j] by {
            if k < ts.len() - 1 {
                assert(32 * k + j < a.len());
                assert(init[k] == ts[k]);
                assert(a[32 * k + j] == init[k].0@[j]);
            } else {
                assert(32 * k + j - a.len() == j);
            }
        }
    }
}

/// The contiguous bytes of the log topics, as the host reads them.
pub fn log_topics_bytes(topics: &[H256]) -> (out: Vec<u8>)
    requires
        topics@.len() <= MAX_LOG_TOPICS,
    ensures
        out@ == topics_bytes(topics@),
        out@.len() == 32 * topics@.len(),
        forall|k: int, j: int|
            0 <= k < topics@.len() && 0 <= j < 32 ==> #[trigger] out@[32 * k + j]
                == #[trigger] topics@[k].0@[j],
{
    let mut out: Vec<u8> = Vec::new();
    let mut k: usize = 0;
    assert(topics@.take(0) =~= Seq::<H256>::empty());
    while k < topics.len()
        invariant
            k <= topics@.len() <= MAX_LOG_TOPICS,
            out@ == topics_bytes(topics@.take(k as int)),
            out@.len() == 32 * k,
        decreases topics@.len() - k,
    {
        let topic = topics[k];
        let ghost start = out@;
        let mut j: usize = 0;
        while j < 32
            invariant
                j <= 32,
                out@ == start + topic.0@.take(j as int),
            decreases 32 - j,
        {
            out.push(topic.0[j]);
            j = j + 1;
            assert(out@ =~= start + topic.0@.take(j as int));
        }
        assert(topic.0@.take(32) =~= topic.0@);
        assert(topics@.take(k + 1).drop_last() =~= topics@.take(k as int));
        k = k + 1;
    }
    assert(topics@.take(k as int) =~= topics@);
    proof {
        lemma_topics_bytes_layout(topics@);
    }
    out
}

/// A buffer of `len` zero bytes, for the host to fill with the call input.
pub fn input_buffer(len: u32) -> (out: Vec<u8>)
    ensures
        out@.len() == len,
        forall|i: int| 0 <= i < len ==> out@[i] == 0u8,
{
    let mut out: Vec<u8> = Vec::new();
    let mut i: u32 = 0;
    while i < len
        invariant
            i <= len,
            out@.len() == i,
            forall|j: int| 0 <= j < i ==> out@[j] == 0u8,
        decreases len - i,
    {
        out.push(0u8);
        i = i + 1;
    }
    out
}

} // verus!
