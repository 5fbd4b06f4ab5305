//! Key identifiers: a derivation depth and four path components.
use vstd::prelude::*;
use crate::types::Identifier;

verus! {

/// Big-endian, four bytes.
pub open spec fn be32(x: u32) -> Seq<u8> {
    seq![((x >> 24) & 0xff) as u8, ((x >> 16) & 0xff) as u8, ((x >> 8) & 0xff) as u8, (x & 0xff) as u8]
}

/// The identifier of a derivation path: the depth, then each component.
pub open spec fn path_bytes(depth: u8, d1: u32, d2: u32, d3: u32, d4: u32) -> Seq<u8> {
    seq![depth] + be32(d1) + be32(d2) + be32(d3) + be32(d4)
}

fn put_be32(a: &mut [u8; 17], at: usize, x: u32)
    requires
        1 <= at <= 13,
    ensures
        forall|i: int| 0 <= i < 17 && !(at <= i < at + 4) ==> final(a)@[i] == old(a)@[i],
        final(a)@.subrange(at as int, at + 4) == be32(x),
{
    a[at] = ((x >> 24) & 0xff) as u8;
    a[at + 1] = ((x >> 16) & 0xff) as u8;
    a[at + 2] = ((x >> 8) & 0xff) as u8;
    a[at + 3] = (x & 0xff) as u8;
    assert(a@.subrange(at as int, at + 4) =~= be32(x));
}

/// The identifier of the key at the given derivation path.
pub fn derive_key_id(depth: u8, d1: u32, d2: u32, d3: u32, d4: u32) -> (r: Identifier)
    ensures
        r.0@ == path_bytes(depth, d1, d2, d3, d4),
{
    let mut a = [0u8; 17];
    a[0] = depth;
    put_be32(&mut a, 1, d1);
    put_be32(&mut a, 5, d2);
    put_be32(&mut a, 9, d3);
    put_be32(&mut a, 13, d4);
    assert(a@ =~= path_bytes(depth, d1, d2, d3, d4)) by {
        let p = path_bytes(depth, d1, d2, d3, d4);
        assert forall|i: int| 0 <= i < 17 implies a@[i] == p[i] by {
            if 1 <= i < 5 {
                assert(a@.subrange(1, 5)[i - 1] == a@[i]);
            } else if 5 <= i < 9 {
                assert(a@.subrange(5, 9)[i - 5] == a@[i]);
            } else if 9 <= i < 13 {
                assert(a@.subrange(9, 13)[i - 9] == a@[i]);
            } else if 13 <= i < 17 {
                assert(a@.subrange(13, 17)[i - 13] == a@[i]);
            }
        }
    }
    Identifier(a)
}

/// The identifier of the root key.
pub fn root_key_id() -> (r: Identifier)
    ensures
        r.0@ == path_bytes(0, 0, 0, 0, 0),
{
    derive_key_id(0, 0, 0, 0, 0)
}

} // verus!
