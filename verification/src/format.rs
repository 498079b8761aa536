//! The marker that opens every BEN file and every decompressed XBEN stream.

use vstd::prelude::*;

verus! {

/// The length of the marker in bytes.
pub const MAGIC_LEN: usize = 17;

/// The marker: the ASCII text `STANDARD BEN FILE`.
pub open spec fn magic() -> Seq<u8> {
    seq![83u8, 84, 65, 78, 68, 65, 82, 68, 32, 66, 69, 78, 32, 70, 73, 76, 69]
}

/// Whether `bytes` open with the marker.
pub open spec fn has_magic(bytes: Seq<u8>) -> bool {
    bytes.len() >= 17 && bytes.take(17) == magic()
}

/// The marker as bytes.
pub fn magic_bytes() -> (bytes: [u8; 17])
    ensures
        bytes@ == magic(),
{
    let bytes: [u8; 17] = [83, 84, 65, 78, 68, 65, 82, 68, 32, 66, 69, 78, 32, 70, 73, 76, 69];
    proof {
        assert(bytes@ =~= magic());
    }
    bytes
}

/// Appends the marker to `out`.
pub fn push_magic(out: &mut Vec<u8>)
    ensures
        final(out)@ == old(out)@ + magic(),
{
    let bytes = magic_bytes();
    let mut i: usize = 0;
    while i < 17
        invariant
            i <= 17,
            bytes@ == magic(),
            out@ == old(out)@ + magic().take(i as int),
        decreases 17 - i,
    {
        out.push(bytes[i]);
        proof {
            assert(magic().take(i + 1) == magic().take(i as int).push(magic()[i as int]));
        }
        i += 1;
    }
    proof {
        assert(magic().take(17) == magic());
    }
}

/// Tells whether `data` opens with the marker.
pub fn has_magic_header(data: &[u8]) -> (ok: bool)
    ensures
        ok == has_magic(data@),
{
    if data.len() < 17 {
        return false;
    }
    let bytes = magic_bytes();
    let mut i: usize = 0;
    while i < 17
        invariant
            i <= 17,
            data@.len() >= 17,
            bytes@ == magic(),
            forall|j: int| 0 <= j < i ==> data@[j] == magic()[j],
        decreases 17 - i,
    {
        if data[i] != bytes[i] {
            proof {
                assert(data@.take(17)[i as int] != magic()[i as int]);
            }
            return false;
        }
        i += 1;
    }
    proof {
        assert(data@.take(17) =~= magic());
    }
    true
}

} // verus!
