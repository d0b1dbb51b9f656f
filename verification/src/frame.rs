//! How derived files are laid out: eight bytes that say what kind of file it
//! is, the length of a header, the header, and whatever follows it.

use vstd::prelude::*;

use crate::bytes;
use crate::bytes::{get_u32, push_bytes, push_le4, same_bytes, slice_to_vec};

verus! {

/// A file of the given kind.
pub open spec fn framed(magic: Seq<u8>, header: Seq<u8>, payload: Seq<u8>) -> Seq<u8> {
    magic + bytes::le4(header.len() as int) + header + payload
}

#[derive(Clone, Copy, Debug, PartialEq, Eq, Structural)]
pub enum FrameError {
    /// The file ends before its header does.
    Short,
    /// The file is of some other kind.
    Magic,
}

/// Where the header of a file ends, it starting at byte 12. A file may say what
/// it is in one of two ways.
pub open spec fn header_end(b: Seq<u8>, magic: Seq<u8>, legacy: Seq<u8>) -> Result<
    int,
    FrameError,
> {
    if b.len() < 8 {
        Err(FrameError::Short)
    } else if b.subrange(0, 8) != magic && b.subrange(0, 8) != legacy {
        Err(FrameError::Magic)
    } else if b.len() < 12 || 12 + bytes::u32_at(b, 8, true) > b.len() {
        Err(FrameError::Short)
    } else {
        Ok(12 + bytes::u32_at(b, 8, true))
    }
}

/// Lay out a file.
pub fn frame(magic: &[u8], header: &[u8], payload: &[u8]) -> (b: Vec<u8>)
    requires
        header.len() <= u32::MAX,
    ensures
        b@ == framed(magic@, header@, payload@),
{
    let mut out: Vec<u8> = Vec::new();
    push_bytes(&mut out, magic);
    push_le4(&mut out, header.len() as u32);
    push_bytes(&mut out, header);
    push_bytes(&mut out, payload);
    proof {
        assert(Seq::<u8>::empty() + magic@ =~= magic@);
    }
    out
}

/// Find where the header of a file ends.
pub fn unframe(b: &[u8], magic: &[u8], legacy: &[u8]) -> (r: Result<usize, FrameError>)
    ensures
        match header_end(b@, magic@, legacy@) {
            Ok(end) => r matches Ok(e) && e == end && 12 <= e <= b@.len(),
            Err(x) => r matches Err(e) && e == x,
        },
{
    if b.len() < 8 {
        return Err(FrameError::Short);
    }
    let start = slice_to_vec(b, 0, 8);
    if !same_bytes(start.as_slice(), magic) && !same_bytes(start.as_slice(), legacy) {
        return Err(FrameError::Magic);
    }
    match get_u32(b, 8, true) {
        None => Err(FrameError::Short),
        Some(n) => {
            if n as u64 > (b.len() - 12) as u64 {
                Err(FrameError::Short)
            } else {
                Ok(12 + n as usize)
            }
        },
    }
}

/// A file that was laid out is found to hold the header and what follows it
/// just as they were.
pub proof fn law_frame_round_trip(
    magic: Seq<u8>,
    legacy: Seq<u8>,
    header: Seq<u8>,
    payload: Seq<u8>,
)
    requires
        magic.len() == 8,
        header.len() <= u32::MAX,
    ensures
        header_end(framed(magic, header, payload), magic, legacy) == Ok::<int, FrameError>(
            12int + header.len(),
        ),
        framed(magic, header, payload).subrange(12, 12int + header.len()) == header,
        framed(magic, header, payload).skip(12int + header.len()) == payload,
{
    let b = framed(magic, header, payload);
    bytes::lemma_le_lens(header.len() as int);
    assert(b.subrange(0, 8) =~= magic);
    assert(b.subrange(8, 12) =~= bytes::le4(header.len() as int));
    bytes::lemma_le4(b, 8, header.len() as int);
    assert(b.subrange(12, 12int + header.len()) =~= header);
    assert(b.skip(12int + header.len()) =~= payload);
}

/// A frame is eight bytes that tell it, the length of the header in four, the header,
/// and all that is left.
pub proof fn law_frame_layout(magic: Seq<u8>, header: Seq<u8>, payload: Seq<u8>)
    requires
        magic.len() == 8,
        header.len() <= u32::MAX,
    ensures
        bytes::carries(framed(magic, header, payload), 0, magic),
        bytes::carries(framed(magic, header, payload), 8, bytes::le4(header.len() as int)),
        bytes::carries(framed(magic, header, payload), 12, header),
        framed(magic, header, payload).skip(12int + header.len()) == payload,
{
    bytes::lemma_le_lens(header.len() as int);
    let b = framed(magic, header, payload);
    assert(b.subrange(0, 8) =~= magic);
    assert(b.subrange(8, 12) =~= bytes::le4(header.len() as int));
    assert(b.subrange(12, 12int + header.len()) =~= header);
    assert(b.skip(12int + header.len()) =~= payload);
}

} // verus!
