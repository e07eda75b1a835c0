//! The records of the binary event stream, and their length-prefixed framing.
use vstd::prelude::*;

verus! {

/// One event of the traced process.
#[derive(Debug)]
pub enum Record {
    Version(u16),
    Exec(String),
    Image { name: String, start_address: usize, size: usize },
    PageInfo { size: usize, pages: usize },
    Trace { ip: usize, parent_idx: usize },
    Alloc { ptr: usize, size: usize, parent_idx: usize },
    Free { ptr: usize },
    Duration(u128),
    RSS(usize),
}

/// The payload length that a frame header gives, little-endian.
pub fn frame_length(header: [u8; 2]) -> (r: u16)
    ensures
        r == header@[0] as nat + 256 * (header@[1] as nat),
{
    header[0] as u16 + 256 * (header[1] as u16)
}

/// The frame header of a payload of `len` bytes, little-endian.
pub fn frame_header(len: u16) -> (r: [u8; 2])
    ensures
        r@[0] == len % 256,
        r@[1] == len / 256,
        r@[0] as nat + 256 * (r@[1] as nat) == len,
{
    [(len % 256) as u8, (len / 256) as u8]
}

} // verus!
