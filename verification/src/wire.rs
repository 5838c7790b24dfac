//! The framing of a sealed batch as one message.

use vstd::prelude::*;
use crate::types::{BatchView, EncodedEventBatch};

verus! {

/// The unsigned LEB128 encoding of `n`: seven bits to a byte, the low ones
/// first, and the high bit set in every byte but the last.
pub open spec fn uleb128(n: u64) -> Seq<u8>
    decreases n,
{
    if n < 128 {
        seq![n as u8]
    } else {
        seq![((n % 128) + 128) as u8] + uleb128(n / 128)
    }
}

/// The four bytes with which every message begins.
pub open spec fn magic() -> Seq<u8> {
    seq![0x44u8, 0x49u8, 0x44u8, 0x4cu8]
}

/// The message that carries `batch`: the magic bytes, the type table of a list
/// of events, the number of events, and the encoded events one after the other.
pub open spec fn envelope(type_table: Seq<u8>, batch: BatchView) -> Seq<u8> {
    magic() + type_table + uleb128(batch.events_count) + batch.content
}

/// Calls `leb128::write::unsigned` on `buf`: appends to it the unsigned LEB128
/// encoding of `value`, as [`uleb128`] gives it. Writing to a vector does not fail.
#[verifier::external_body]
fn write_unsigned(buf: &mut Vec<u8>, value: u64)
    ensures
        final(buf)@ == old(buf)@ + uleb128(value),
{
    leb128::write::unsigned(buf, value).expect("Unable to write len");
}

/// Frames `batch` as a message with the type table `type_table`.
pub fn encode_envelope(type_table: &[u8], batch: &EncodedEventBatch) -> (msg: Vec<u8>)
    ensures
        msg@ == envelope(type_table@, batch@),
{
    let mut msg: Vec<u8> = Vec::new();
    msg.push(0x44u8);
    msg.push(0x49u8);
    msg.push(0x44u8);
    msg.push(0x4cu8);
    assert(msg@ =~= magic());
    msg.extend_from_slice(type_table);
    assert(msg@ =~= magic() + type_table@);
    write_unsigned(&mut msg, batch.events_count);
    let ghost head = msg@;
    msg.extend_from_slice(batch.content.as_slice());
    assert(msg@ =~= head + batch.content@);
    msg
}

} // verus!
