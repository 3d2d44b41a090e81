use vstd::prelude::*;
use byteorder::ByteOrder;
use crate::bytes::le_value;

verus! {

/// What one run of the target reports back: an identifier of the run, the
/// number of coverage nodes it reached, and how many of them were new.
pub struct Feedback {
    pub exec_id: u64,
    pub node: u32,
    pub newnode: u32,
}

/// How a run of the target ended.
#[derive(PartialEq, Eq, Structural, Debug, Clone, Copy)]
pub enum ExecResult {
    Crash,
    Hang,
    Success,
}

/// Size in bytes of the feedback record that the target writes.
pub const FEEDBACK_LEN: usize = 16;

/// `byteorder::LittleEndian::read_u64`: the first eight bytes of `buf`,
/// least significant first. It panics on fewer than eight bytes.
#[verifier::external_body]
fn read_u64_le(buf: &[u8]) -> (r: u64)
    requires
        buf@.len() >= 8,
    ensures
        r == le_value(buf@.subrange(0, 8)),
{
    byteorder::LittleEndian::read_u64(buf)
}

/// `byteorder::LittleEndian::read_u32`: the first four bytes of `buf`,
/// least significant first. It panics on fewer than four bytes.
#[verifier::external_body]
fn read_u32_le(buf: &[u8]) -> (r: u32)
    requires
        buf@.len() >= 4,
    ensures
        r == le_value(buf@.subrange(0, 4)),
{
    byteorder::LittleEndian::read_u32(buf)
}

/// Decodes the feedback record: a little-endian `u64` run identifier, then
/// the node count and the new-node count as little-endian `u32`s.
pub fn parse_feedback(bytes: &[u8]) -> (f: Feedback)
    requires
        bytes@.len() >= FEEDBACK_LEN,
    ensures
        f.exec_id == le_value(bytes@.subrange(0, 8)),
        f.node == le_value(bytes@.subrange(8, 12)),
        f.newnode == le_value(bytes@.subrange(12, 16)),
{
    let exec_id = read_u64_le(bytes);
    let node_bytes = &bytes[8..12];
    let newnode_bytes = &bytes[12..16];
    assert(node_bytes@.subrange(0, 4) =~= bytes@.subrange(8, 12));
    assert(newnode_bytes@.subrange(0, 4) =~= bytes@.subrange(12, 16));
    let node = read_u32_le(node_bytes);
    let newnode = read_u32_le(newnode_bytes);
    Feedback { exec_id, node, newnode }
}

/// Classifies the status that the fork server reports: `-1` is a timeout,
/// `0` a normal exit, and anything else a crash.
pub fn classify_status(status: i32) -> (r: ExecResult)
    ensures
        status == -1 ==> r == ExecResult::Hang,
        status == 0 ==> r == ExecResult::Success,
        status != -1 && status != 0 ==> r == ExecResult::Crash,
{
    match status {
        -1 => ExecResult::Hang,
        0 => ExecResult::Success,
        _ => ExecResult::Crash,
    }
}

} // verus!
