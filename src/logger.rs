//! The session logger's protocol: its commands and the names of its files.
use vstd::prelude::*;
use crate::codec::{digits_of, push_digits, Reading};

verus! {

/// Commands to the session logger.
#[derive(Clone, Copy, Debug, PartialEq, Eq, Structural)]
pub enum Command {
    /// Append one row to the current session file.
    Write(Reading),
    /// Close the current session file and open a fresh one.
    NewFile,
    /// Close the session file for good.
    Kill,
}

/// `log-<epoch>.csv`, the epoch in decimal seconds.
pub open spec fn session_file(epoch: u64) -> Seq<u8> {
    seq![0x6cu8, 0x6fu8, 0x67u8, 0x2du8] + digits_of(epoch as nat) + seq![0x2eu8, 0x63u8, 0x73u8, 0x76u8]
}

/// The name of the session file opened at `epoch` seconds since the Unix epoch.
pub fn session_file_name(epoch: u64) -> (r: Vec<u8>)
    ensures
        r@ == session_file(epoch),
{
    let mut out: Vec<u8> = vec![0x6c, 0x6f, 0x67, 0x2d];
    let ghost head = out@;
    push_digits(&mut out, epoch);
    assert(out@ == head + digits_of(epoch as nat));
    out.push(0x2e);
    out.push(0x63);
    out.push(0x73);
    out.push(0x76);
    assert(out@ =~= session_file(epoch));
    out
}

} // verus!
