//! Which pings of a recording are written out as fixtures.

use vstd::prelude::*;

use crate::bytes::slice_to_vec;
use crate::jsf;
use crate::jsf::{parse_sonar_message, walk};

verus! {

/// Every how many sonar messages one is shown, so that the sample crosses files,
/// channels and range changes rather than clustering at the start.
pub const EVERY: usize = 97;

/// How many of some messages are sonar data.
pub open spec fn sonar_count(ms: Seq<jsf::Message>) -> nat
    decreases ms.len(),
{
    if ms.len() == 0 {
        0
    } else {
        sonar_count(ms.drop_last()) + (if ms.last().hdr.mtype == 80 {
            1nat
        } else {
            0
        })
    }
}

/// Where the shown messages among some messages stand: of the sonar data every
/// one whose turn it is and that can be read.
pub open spec fn shown(b: Seq<u8>, ms: Seq<jsf::Message>) -> Seq<u64>
    decreases ms.len(),
{
    if ms.len() == 0 {
        Seq::empty()
    } else {
        let before = shown(b, ms.drop_last());
        let m = ms.last();
        if m.hdr.mtype == 80 && sonar_count(ms.drop_last()) % EVERY as nat == 0
            && jsf::ping_readable(b.subrange(m.start as int, m.end as int)) {
            before.push(m.hdr.offset)
        } else {
            before
        }
    }
}

/// Whether a sample that is to hold so many ends behind the first `k` messages:
/// there are no more, or it is full, and before that it was not.
pub open spec fn ends_behind(b: Seq<u8>, ms: Seq<jsf::Message>, limit: int, k: int) -> bool {
    &&& 0 <= k <= ms.len()
    &&& k == ms.len() || (k > 0 && shown(b, ms.take(k)).len() >= limit)
    &&& forall|j: int| 0 < j < k ==> shown(b, #[trigger] ms.take(j)).len() < limit
}

/// Where the messages of a sample of a JSF file stand. The file is read message
/// by message until the sample holds `limit` of them; a first message is looked
/// at in any case.
pub fn sampled(b: &[u8], limit: usize) -> (v: Vec<u64>)
    ensures
        exists|k: int|
            #![trigger jsf::messages_from(b@, 0).0.take(k)]
            ends_behind(b@, jsf::messages_from(b@, 0).0, limit as int, k) && v@ == shown(
                b@,
                jsf::messages_from(b@, 0).0.take(k),
            ),
{
    let w = walk(b);
    let n: usize = b.len();
    let mut v: Vec<u64> = Vec::new();
    let mut sonar: usize = 0;
    let mut i: usize = 0;
    let ghost ms = jsf::messages_from(b@, 0).0;
    proof {
        jsf::lemma_messages_inside(b@, 0);
        assert(w.messages@ == ms);
    }
    while i < w.messages.len()
        invariant
            ms == jsf::messages_from(b@, 0).0,
            w.messages@ == ms,
            i <= ms.len(),
            n == b@.len(),
            sonar <= i,
            sonar == sonar_count(ms.take(i as int)),
            v@ == shown(b@, ms.take(i as int)),
            i > 0 ==> v@.len() < limit,
            forall|j: int|
                0 <= j < ms.len() ==> (#[trigger] ms[j]).start <= ms[j].end && ms[j].end
                    <= b@.len(),
            forall|j: int| 0 < j < i ==> shown(b@, #[trigger] ms.take(j)).len() < limit,
        decreases ms.len() - i,
    {
        let m = w.messages[i];
        let ghost next = ms.take(i + 1);
        proof {
            assert(ms[i as int] == m);
            assert(next.drop_last() =~= ms.take(i as int));
            assert(next.last() == m);
        }
        if m.hdr.mtype == 80 {
            if sonar % EVERY == 0 {
                let body = slice_to_vec(b, m.start as usize, m.end as usize);
                if parse_sonar_message(&m.hdr, body.as_slice()).is_some() {
                    v.push(m.hdr.offset);
                }
            }
            sonar += 1;
        }
        i += 1;
        if v.len() >= limit {
            assert(ends_behind(b@, ms, limit as int, i as int));
            return v;
        }
    }
    assert(ends_behind(b@, ms, limit as int, i as int));
    v
}

/// Pings are counted by the messages that are of their kind.
pub proof fn law_sonar_count(ms: Seq<jsf::Message>)
    ensures
        sonar_count(ms) == ms.filter(|m: jsf::Message| m.hdr.mtype == 80).len(),
    decreases ms.len(),
{
    reveal(Seq::filter);
    if ms.len() > 0 {
        law_sonar_count(ms.drop_last());
    }
}

/// A message is shown if it is a ping that can be read and ninety-seven, or a multiple
/// of that many, pings come before it; the first ping is one.
pub proof fn law_every_so_many(b: Seq<u8>, ms: Seq<jsf::Message>, m: jsf::Message)
    ensures
        ({
            let before = ms.filter(|m: jsf::Message| m.hdr.mtype == 80).len();
            if m.hdr.mtype == 80 && before as int % 97 == 0 && jsf::ping_readable(
                b.subrange(m.start as int, m.end as int),
            ) {
                shown(b, ms.push(m)) == shown(b, ms).push(m.hdr.offset)
            } else {
                shown(b, ms.push(m)) == shown(b, ms)
            }
        }),
        shown(b, Seq::empty()).len() == 0,
{
    law_sonar_count(ms);
    assert(ms.push(m).drop_last() =~= ms);
    assert(ms.push(m).last() == m);
}

} // verus!
