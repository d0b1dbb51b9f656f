//! Sidescan survey library.

use vstd::prelude::*;

use crate::text::push_hex;

pub mod api;
pub mod bytes;
pub mod cli;
pub mod crs;
pub mod fixtures;
pub mod frame;
pub mod gpx;
pub mod grid;
pub mod index;
pub mod jsf;
pub mod layer;
pub mod mosaic;
pub mod names;
pub mod nav;
pub mod order;
pub mod plan;
pub mod project;
pub mod report;
pub mod server;
pub mod signal;
pub mod text;
pub mod tiff;
pub mod time;
pub mod ui;
pub mod waterfall;
pub mod xtf;

verus! {

/// The application's version, as it is written into files and pages.
pub const VERSION: &'static str = "0.1.0";

/// The 64-bit FNV-1a digest of some bytes.
pub open spec fn digest(b: Seq<u8>) -> u64
    decreases b.len(),
{
    if b.len() == 0 {
        0xcbf2_9ce4_8422_2325
    } else {
        (((digest(b.drop_last()) ^ b.last() as u64) * 0x100_0000_01b3) % 0x1_0000_0000_0000_0000)
            as u64
    }
}

/// A short, stable name for a settings object, given as text.
///
/// Derived products are cached on disk and in the browser, and both caches are
/// keyed by this: the name changes when a field the reader can see changes.
pub fn fingerprint(json: &[u8]) -> (s: String)
    ensures
        s@ == text::hex(digest(json@) as nat, 16),
{
    let mut h: u64 = 0xcbf2_9ce4_8422_2325;
    let mut i: usize = 0;
    while i < json.len()
        invariant
            i <= json@.len(),
            h == digest(json@.take(i as int)),
        decreases json.len() - i,
    {
        proof {
            assert(json@.take(i + 1).drop_last() =~= json@.take(i as int));
        }
        let x: u64 = h ^ (json[i] as u64);
        let wide: u128 = x as u128 * 0x100_0000_01b3;
        h = (wide % 0x1_0000_0000_0000_0000) as u64;
        i += 1;
    }
    proof {
        assert(json@.take(json@.len() as int) =~= json@);
    }
    let mut s = String::new();
    push_hex(&mut s, h, 16);
    proof {
        assert(s@ =~= text::hex(h as nat, 16));
    }
    s
}

/// The digest of nothing, and what each byte makes of the digest before it.
pub proof fn law_digest(b: Seq<u8>, x: u8)
    ensures
        digest(Seq::empty()) == 14695981039346656037,
        digest(b.push(x)) as int == ((digest(b) ^ x as u64) * 1099511628211) % 18446744073709551616,
{
    assert(b.push(x).drop_last() =~= b);
}

} // verus!
