//! The waterfall: which pings make up which rows of it.

use vstd::prelude::*;

use crate::index::table;

use crate::index::PingRecord;
use crate::order;
use crate::order::{is_nan64, sort_order, total_order_key};

pub mod view;

verus! {

/// Across-track axis: raw slant range, or slant-corrected ground range.
#[derive(Clone, Copy, Debug, PartialEq, Eq, Structural)]
pub enum Axis {
    Slant,
    Ground,
}

impl Default for Axis {
    fn default() -> (a: Axis)
        ensures
            a == Axis::Ground,
    {
        Axis::Ground
    }
}

/// Pings the bottom is smoothed over.
pub const BOTTOM_MEDIAN: usize = 9;

/// One row of a recording, seen from one band.
///
/// A row is a moment, not a record: the row carrying the low band's ping is the
/// row carrying the high band's, and a band with nothing at that instant leaves
/// the slot empty rather than shifting everything after it up by one.
#[derive(Clone, Copy, Debug, PartialEq, Eq, Structural)]
pub struct Row {
    /// This band's port and starboard records. Either or both may be missing.
    pub port: Option<u32>,
    pub stbd: Option<u32>,
    /// The record that stands for this instant, the same one in every band.
    pub at: u32,
}

impl Row {
    /// This band's own record, if it caught this ping.
    pub fn own(&self) -> (r: Option<u32>)
        ensures
            r == (if self.port is Some {
                self.port
            } else {
                self.stbd
            }),
    {
        match self.port {
            Some(p) => Some(p),
            None => self.stbd,
        }
    }
}

// ---- pairing -------------------------------------------------------------------

/// Where a subsystem stands among some, or their number where it does not.
pub open spec fn band_of(subs: Seq<u8>, s: u8) -> int
    decreases subs.len(),
{
    if subs.len() == 0 {
        0
    } else if subs[0] == s {
        0
    } else {
        1 + band_of(subs.drop_first(), s)
    }
}

/// A recording on its way to being paired: the rows closed so far, one row per
/// band in each; the slots of the row that is open; and at which position in
/// time order it was opened, where that is known.
pub struct Pairing {
    pub rows: Seq<Seq<Row>>,
    pub open: Seq<Option<Row>>,
    pub start: Option<int>,
}

/// The first slot that is filled.
pub open spec fn first_open(open: Seq<Option<Row>>) -> int
    decreases open.len(),
{
    if open.len() == 0 {
        0
    } else if open[0] is Some {
        0
    } else {
        1 + first_open(open.drop_first())
    }
}

/// The row that some slots make: every band gets one, whether or not it caught
/// this ping, and every band's points at the same record.
pub open spec fn closed_row(open: Seq<Option<Row>>) -> Seq<Row> {
    let at = (open[first_open(open)]->0).at;
    open.map_values(
        |o: Option<Row>|
            match o {
                Some(r) => Row { port: r.port, stbd: r.stbd, at },
                None => Row { port: None, stbd: None, at },
            },
    )
}

/// All slots empty.
pub open spec fn no_slots(n: nat) -> Seq<Option<Row>> {
    Seq::new(n, |b: int| None)
}

/// A pairing with its open row closed, if one is open.
pub open spec fn flushed(p: Pairing) -> Pairing {
    if first_open(p.open) >= p.open.len() {
        Pairing { rows: p.rows, open: p.open, start: None }
    } else {
        Pairing {
            rows: p.rows.push(closed_row(p.open)),
            open: no_slots(p.open.len()),
            start: None,
        }
    }
}

/// Whether a record's slot is filled already.
pub open spec fn slot_taken(open: Seq<Option<Row>>, b: int, r: PingRecord) -> bool {
    open[b] matches Some(x) && (if r.channel == 0 {
        x.port is Some
    } else {
        x.stbd is Some
    })
}

/// A slot with a record put into it.
pub open spec fn filled_slot(o: Option<Row>, r: PingRecord, i: u32) -> Row {
    let x = match o {
        Some(x) => x,
        None => Row { port: None, stbd: None, at: i },
    };
    if r.channel == 0 {
        Row { port: Some(i), stbd: x.stbd, at: x.at }
    } else {
        Row { port: x.port, stbd: Some(i), at: x.at }
    }
}

/// What the `k`th record in time order, record `i`, makes of a pairing. The row
/// that is open is closed when the record is too late to belong to it or is a
/// second copy of a slot already filled.
pub open spec fn paired_with(
    p: Pairing,
    subs: Seq<u8>,
    r: PingRecord,
    i: u32,
    k: int,
    late: Seq<usize>,
) -> Pairing {
    let b = band_of(subs, r.subsystem);
    let p1 = if p.start is Some && (late[p.start->0] == k || slot_taken(p.open, b, r)) {
        flushed(p)
    } else {
        p
    };
    Pairing {
        rows: p1.rows,
        open: p1.open.update(b, Some(filled_slot(p1.open[b], r, i))),
        start: if p1.start is Some {
            p1.start
        } else if order::nan64(r.time) {
            None
        } else {
            Some(k)
        },
    }
}

/// The pairing of the first `k` records in time order.
pub open spec fn pairing(
    subs: Seq<u8>,
    rs: Seq<PingRecord>,
    p: Seq<usize>,
    late: Seq<usize>,
    k: int,
) -> Pairing
    decreases k,
{
    if k <= 0 {
        Pairing { rows: Seq::empty(), open: no_slots(subs.len()), start: None }
    } else {
        paired_with(
            pairing(subs, rs, p, late, k - 1),
            subs,
            rs[p[k - 1] as int],
            p[k - 1] as u32,
            k - 1,
            late,
        )
    }
}

/// The rows of a recording, one row per band in each.
pub open spec fn rows_of(subs: Seq<u8>, rs: Seq<PingRecord>, p: Seq<usize>, late: Seq<usize>) -> Seq<
    Seq<Row>,
> {
    flushed(pairing(subs, rs, p, late, p.len() as int)).rows
}

pub open spec fn row_views(v: Seq<Vec<Row>>) -> Seq<Seq<Row>> {
    v.map_values(|r: Vec<Row>| r@)
}

/// Every subsystem of some records is among some.
pub open spec fn bands_cover(subs: Seq<u8>, rs: Seq<PingRecord>) -> bool {
    forall|i: int| 0 <= i < rs.len() ==> subs.contains((#[trigger] rs[i]).subsystem)
}

proof fn lemma_band_of(subs: Seq<u8>, s: u8)
    requires
        subs.contains(s),
    ensures
        0 <= band_of(subs, s) < subs.len(),
        subs[band_of(subs, s)] == s,
    decreases subs.len(),
{
    if subs[0] != s {
        let m = choose|m: int| 0 <= m < subs.len() && subs[m] == s;
        assert(subs.drop_first()[m - 1] == s);
        lemma_band_of(subs.drop_first(), s);
    }
}

fn find_band(subs: &Vec<u8>, s: u8) -> (b: usize)
    requires
        subs@.contains(s),
    ensures
        b == band_of(subs@, s),
        b < subs@.len(),
{
    proof {
        lemma_band_of(subs@, s);
        assert(subs@.skip(0) =~= subs@);
    }
    let mut b: usize = 0;
    while b < subs.len() && subs[b] != s
        invariant
            b <= subs@.len(),
            band_of(subs@, s) == b + band_of(subs@.skip(b as int), s),
            band_of(subs@, s) < subs@.len(),
        decreases subs.len() - b,
    {
        proof {
            assert(subs@.skip(b as int)[0] == subs@[b as int]);
            assert(subs@.skip(b as int).drop_first() =~= subs@.skip(b + 1));
        }
        b += 1;
    }
    proof {
        if b < subs@.len() {
            assert(subs@.skip(b as int)[0] == subs@[b as int]);
        } else {
            assert(subs@.skip(b as int).len() == 0);
        }
    }
    b
}

proof fn lemma_first_open(open: Seq<Option<Row>>)
    ensures
        0 <= first_open(open) <= open.len(),
        first_open(open) < open.len() ==> open[first_open(open)] is Some,
        forall|b: int| 0 <= b < first_open(open) ==> #[trigger] open[b] is None,
    decreases open.len(),
{
    if open.len() > 0 && open[0] is None {
        let rest = open.drop_first();
        lemma_first_open(rest);
        assert forall|b: int| 0 <= b < first_open(open) implies #[trigger] open[b] is None by {
            if b > 0 {
                assert(rest[b - 1] is None);
            }
        }
    }
}

fn find_open(open: &Vec<Option<Row>>) -> (b: usize)
    ensures
        b == first_open(open@),
        b <= open@.len(),
        b < open@.len() ==> open@[b as int] is Some,
{
    proof {
        assert(open@.skip(0) =~= open@);
        lemma_first_open(open@);
    }
    let mut b: usize = 0;
    while b < open.len() && open[b].is_none()
        invariant
            b <= open@.len(),
            first_open(open@) == b + first_open(open@.skip(b as int)),
        decreases open.len() - b,
    {
        proof {
            assert(open@.skip(b as int)[0] == open@[b as int]);
            assert(open@.skip(b as int).drop_first() =~= open@.skip(b + 1));
        }
        b += 1;
    }
    proof {
        if b < open@.len() {
            assert(open@.skip(b as int)[0] == open@[b as int]);
        }
    }
    b
}

fn flush(rows: &mut Vec<Vec<Row>>, open: &mut Vec<Option<Row>>)
    ensures
        ({
            let p = flushed(
                Pairing { rows: row_views(old(rows)@), open: old(open)@, start: None },
            );
            row_views(final(rows)@) == p.rows && final(open)@ == p.open
        }),
        final(open)@.len() == old(open)@.len(),
{
    let n: usize = open.len();
    let first = find_open(open);
    if first >= n {
        return ;
    }
    let at: u32 = match open[first] {
        Some(r) => r.at,
        None => 0,
    };
    let ghost slots = open@;
    let mut row: Vec<Row> = Vec::new();
    let mut b: usize = 0;
    while b < n
        invariant
            b <= n,
            n == slots.len(),
            open@.len() == n,
            at == (slots[first_open(slots)]->0).at,
            row@ == closed_row(slots).take(b as int),
            forall|c: int| 0 <= c < b ==> #[trigger] open@[c] is None,
            forall|c: int| b <= c < n ==> #[trigger] open@[c] == slots[c],
        decreases n - b,
    {
        let r = match open[b] {
            Some(r) => Row { port: r.port, stbd: r.stbd, at },
            None => Row { port: None, stbd: None, at },
        };
        row.push(r);
        open.set(b, None);
        b += 1;
        proof {
            assert(closed_row(slots).take(b as int) =~= closed_row(slots).take(b - 1).push(r));
        }
    }
    let ghost was = rows@;
    proof {
        assert(closed_row(slots).take(n as int) =~= closed_row(slots));
        assert(open@ =~= no_slots(n as nat));
    }
    rows.push(row);
    proof {
        assert(row_views(rows@) =~= row_views(was).push(closed_row(slots)));
    }
}

/// The order that records come in by time, as a stable sort puts them.
pub fn time_order(rs: &Vec<PingRecord>) -> (p: Vec<usize>)
    ensures
        order::is_order(table::time_keys(rs@), p@),
{
    let mut keys: Vec<i64> = Vec::new();
    let mut i: usize = 0;
    while i < rs.len()
        invariant
            i <= rs@.len(),
            keys@.len() == i,
            forall|k: int| 0 <= k < i ==> #[trigger] keys@[k] == order::total_key(rs@[k].time),
        decreases rs.len() - i,
    {
        keys.push(total_order_key(rs[i].time));
        i += 1;
    }
    proof {
        assert(keys@ =~= table::time_keys(rs@));
    }
    sort_order(&keys)
}

/// The recording's row space: every band, on one shared set of rows.
///
/// `p` is the order of the records in time, and `late` says for each position
/// in it at which later position the first record stands that is too late for a
/// row opened there. A row is closed by such a record, or by one whose slot is
/// filled already: that is what keeps two pings apart however the interval
/// between them jitters.
pub fn pair_bands(subs: &Vec<u8>, rs: &Vec<PingRecord>, p: &Vec<usize>, late: &Vec<usize>) -> (rows:
    Vec<Vec<Row>>)
    requires
        rs@.len() <= u32::MAX,
        bands_cover(subs@, rs@),
        forall|k: int| 0 <= k < p@.len() ==> #[trigger] p@[k] < rs@.len(),
        late@.len() == p@.len(),
    ensures
        row_views(rows@) == rows_of(subs@, rs@, p@, late@),
{
    let n: usize = subs.len();
    let mut rows: Vec<Vec<Row>> = Vec::new();
    let mut open: Vec<Option<Row>> = Vec::new();
    let mut b: usize = 0;
    while b < n
        invariant
            b <= n,
            open@ == no_slots(b as nat),
        decreases n - b,
    {
        open.push(None);
        b += 1;
        proof {
            assert(open@ =~= no_slots(b as nat));
        }
    }
    let mut start: Option<usize> = None;
    let mut k: usize = 0;
    proof {
        assert(row_views(rows@) =~= Seq::<Seq<Row>>::empty());
    }
    while k < p.len()
        invariant
            k <= p@.len(),
            n == subs@.len(),
            rs@.len() <= u32::MAX,
            bands_cover(subs@, rs@),
            forall|j: int| 0 <= j < p@.len() ==> #[trigger] p@[j] < rs@.len(),
            late@.len() == p@.len(),
            open@.len() == n,
            match start {
                Some(s) => s < k,
                None => true,
            },
            ({
                let st = pairing(subs@, rs@, p@, late@, k as int);
                &&& st.rows == row_views(rows@)
                &&& st.open == open@
                &&& match start {
                    Some(s) => st.start == Some(s as int),
                    None => st.start is None,
                }
            }),
        decreases p.len() - k,
    {
        let i: usize = p[k];
        let r = rs[i];
        proof {
            assert(subs@.contains(rs@[i as int].subsystem));
        }
        let b = find_band(subs, r.subsystem);
        let taken = match open[b] {
            Some(x) => if r.channel == 0 {
                x.port.is_some()
            } else {
                x.stbd.is_some()
            },
            None => false,
        };
        let close = match start {
            Some(s) => late[s] == k || taken,
            None => false,
        };
        if close {
            flush(&mut rows, &mut open);
            start = None;
        }
        if start.is_none() && !is_nan64(r.time) {
            start = Some(k);
        }
        let slot = match open[b] {
            Some(x) => x,
            None => Row { port: None, stbd: None, at: i as u32 },
        };
        let slot = if r.channel == 0 {
            Row { port: Some(i as u32), stbd: slot.stbd, at: slot.at }
        } else {
            Row { port: slot.port, stbd: Some(i as u32), at: slot.at }
        };
        open.set(b, Some(slot));
        k += 1;
    }
    flush(&mut rows, &mut open);
    rows
}

/// One band's rows.
pub fn pair_channels(rows: &Vec<Vec<Row>>, b: usize) -> (v: Vec<Row>)
    requires
        forall|i: int| 0 <= i < rows@.len() ==> b < (#[trigger] rows@[i])@.len(),
    ensures
        v@ == rows@.map_values(|r: Vec<Row>| r@[b as int]),
{
    let mut v: Vec<Row> = Vec::new();
    let mut i: usize = 0;
    while i < rows.len()
        invariant
            i <= rows@.len(),
            forall|j: int| 0 <= j < rows@.len() ==> b < (#[trigger] rows@[j])@.len(),
            v@.len() == i,
            forall|j: int| 0 <= j < i ==> #[trigger] v@[j] == rows@[j]@[b as int],
        decreases rows.len() - i,
    {
        v.push(rows[i][b]);
        i += 1;
    }
    proof {
        assert(v@ =~= rows@.map_values(|r: Vec<Row>| r@[b as int]));
    }
    v
}

// ---- laws of pairing -----------------------------------------------------------

/// Rows of a pairing have one row per band, and in each all bands point at the
/// same record.
pub open spec fn rows_agree(rows: Seq<Seq<Row>>, bands: nat) -> bool {
    &&& forall|i: int| 0 <= i < rows.len() ==> (#[trigger] rows[i]).len() == bands
    &&& forall|i: int, a: int, b: int|
        #![trigger rows[i][a], rows[i][b]]
        0 <= i < rows.len() && 0 <= a < bands && 0 <= b < bands ==> rows[i][a].at == rows[i][b].at
}

proof fn lemma_flush_agrees(p: Pairing, bands: nat)
    requires
        rows_agree(p.rows, bands),
        p.open.len() == bands,
    ensures
        rows_agree(flushed(p).rows, bands),
        flushed(p).open.len() == bands,
{
    let q = flushed(p);
    if q.rows.len() > p.rows.len() {
        let last = closed_row(p.open);
        assert forall|i: int| 0 <= i < q.rows.len() implies (#[trigger] q.rows[i]).len() == bands by {
            if i < p.rows.len() {
                assert(q.rows[i] == p.rows[i]);
            } else {
                assert(q.rows[i] == last);
            }
        }
        assert forall|i: int, a: int, b: int|
            #![trigger q.rows[i][a], q.rows[i][b]]
            0 <= i < q.rows.len() && 0 <= a < bands && 0 <= b < bands implies q.rows[i][a].at
            == q.rows[i][b].at by {
            if i < p.rows.len() {
                assert(q.rows[i] == p.rows[i]);
                assert(p.rows[i][a].at == p.rows[i][b].at);
            } else {
                assert(q.rows[i] == last);
            }
        }
    }
}

proof fn lemma_pairing_agrees(
    subs: Seq<u8>,
    rs: Seq<PingRecord>,
    p: Seq<usize>,
    late: Seq<usize>,
    k: int,
)
    requires
        0 <= k <= p.len(),
        bands_cover(subs, rs),
        forall|m: int| 0 <= m < p.len() ==> #[trigger] p[m] < rs.len(),
    ensures
        rows_agree(pairing(subs, rs, p, late, k).rows, subs.len()),
        pairing(subs, rs, p, late, k).open.len() == subs.len(),
    decreases k,
{
    if k > 0 {
        lemma_pairing_agrees(subs, rs, p, late, k - 1);
        lemma_flush_agrees(pairing(subs, rs, p, late, k - 1), subs.len());
        assert(subs.contains(rs[p[k - 1] as int].subsystem));
        lemma_band_of(subs, rs[p[k - 1] as int].subsystem);
    }
}

/// Every band gets the same number of rows, and in each row the same record
/// stands for the instant in all of them: one instant resolves to the same row
/// and the same place whichever band is asked.
pub proof fn law_bands_share_rows(
    subs: Seq<u8>,
    rs: Seq<PingRecord>,
    p: Seq<usize>,
    late: Seq<usize>,
)
    requires
        bands_cover(subs, rs),
        forall|m: int| 0 <= m < p.len() ==> #[trigger] p[m] < rs.len(),
    ensures
        rows_agree(rows_of(subs, rs, p, late), subs.len()),
{
    lemma_pairing_agrees(subs, rs, p, late, p.len() as int);
    lemma_flush_agrees(pairing(subs, rs, p, late, p.len() as int), subs.len());
}

/// Whether a row holds a record on the given side.
pub open spec fn row_holds(x: Row, side: u8, i: u32) -> bool {
    if side == 0 {
        x.port == Some(i)
    } else {
        x.stbd == Some(i)
    }
}

/// Whether a record is in one of some rows, in its band and on its side.
pub open spec fn in_rows(rows: Seq<Seq<Row>>, b: int, side: u8, i: u32) -> bool {
    exists|j: int| 0 <= j < rows.len() && row_holds(#[trigger] rows[j][b], side, i)
}

/// Whether a record is in a pairing, be it in a closed row or the open one.
pub open spec fn in_pairing(p: Pairing, b: int, side: u8, i: u32) -> bool {
    in_rows(p.rows, b, side, i) || (p.open[b] matches Some(x) && row_holds(x, side, i))
}

proof fn lemma_flush_keeps(p: Pairing, b: int, side: u8, i: u32)
    requires
        0 <= b < p.open.len(),
        in_pairing(p, b, side, i),
    ensures
        in_pairing(flushed(p), b, side, i),
        p.open[b] is Some ==> in_rows(flushed(p).rows, b, side, i),
        flushed(p).open[b] is Some ==> false,
{
    let q = flushed(p);
    lemma_first_open(p.open);
    if first_open(p.open) < p.open.len() {
        let last = closed_row(p.open);
        assert(q.rows[p.rows.len() as int] == last);
        if in_rows(p.rows, b, side, i) {
            let j = choose|j: int|
                0 <= j < p.rows.len() && row_holds(#[trigger] p.rows[j][b], side, i);
            assert(q.rows[j] == p.rows[j]);
            assert(row_holds(q.rows[j][b], side, i));
        } else {
            assert(row_holds(q.rows[p.rows.len() as int][b], side, i));
        }
    } else {
        assert(p.open[b] is None);
    }
}

/// Whether a row is open exactly when it is known where it was opened.
spec fn open_is_dated(p: Pairing) -> bool {
    p.start is None ==> forall|b: int| 0 <= b < p.open.len() ==> #[trigger] p.open[b] is None
}

proof fn lemma_pairing_keeps(
    subs: Seq<u8>,
    rs: Seq<PingRecord>,
    p: Seq<usize>,
    late: Seq<usize>,
    k: int,
    j: int,
)
    requires
        0 <= k <= p.len(),
        bands_cover(subs, rs),
        rs.len() <= u32::MAX,
        forall|m: int| 0 <= m < p.len() ==> #[trigger] p[m] < rs.len(),
        forall|m: int| 0 <= m < rs.len() ==> !order::nan64((#[trigger] rs[m]).time),
    ensures
        open_is_dated(pairing(subs, rs, p, late, k)),
        0 <= j < k ==> in_pairing(
            pairing(subs, rs, p, late, k),
            band_of(subs, rs[p[j] as int].subsystem),
            side_of(rs[p[j] as int]),
            p[j] as u32,
        ),
    decreases k,
{
    if k > 0 {
        let was = pairing(subs, rs, p, late, k - 1);
        let r = rs[p[k - 1] as int];
        let i = p[k - 1] as u32;
        lemma_pairing_keeps(subs, rs, p, late, k - 1, j);
        lemma_pairing_agrees(subs, rs, p, late, k - 1);
        assert(subs.contains(r.subsystem));
        lemma_band_of(subs, r.subsystem);
        let b = band_of(subs, r.subsystem);
        let mid = if was.start is Some && (late[was.start->0] == k - 1 || slot_taken(
            was.open,
            b,
            r,
        )) {
            flushed(was)
        } else {
            was
        };
        let now = pairing(subs, rs, p, late, k);
        assert(now == paired_with(was, subs, r, i, k - 1, late));
        assert(now.start is Some);
        if 0 <= j < k - 1 {
            let rj = rs[p[j] as int];
            let ij = p[j] as u32;
            assert(subs.contains(rj.subsystem));
            lemma_band_of(subs, rj.subsystem);
            let bj = band_of(subs, rj.subsystem);
            let side = side_of(rj);
            lemma_flush_keeps(was, bj, side, ij);
            assert(in_pairing(mid, bj, side, ij));
            if in_rows(mid.rows, bj, side, ij) {
                assert(in_rows(now.rows, bj, side, ij));
            } else if bj == b {
                assert(!slot_taken(mid.open, b, r));
                assert(row_holds(mid.open[b]->0, side, ij));
                assert(row_holds(now.open[b]->0, side, ij));
            } else {
                assert(now.open[bj] == mid.open[bj]);
            }
        } else if j == k - 1 {
            assert(row_holds(now.open[b]->0, side_of(r), i));
        }
    }
}

/// The side of the fish that a record is of: 0 for port, 1 for starboard.
pub open spec fn side_of(r: PingRecord) -> u8 {
    if r.channel == 0 {
        0
    } else {
        1
    }
}

/// No ping is lost in pairing: every record whose time is known, among records
/// whose times are all known, is in a row of its band, on its side.
pub proof fn law_pairing_keeps_pings(
    subs: Seq<u8>,
    rs: Seq<PingRecord>,
    p: Seq<usize>,
    late: Seq<usize>,
    i: usize,
)
    requires
        bands_cover(subs, rs),
        rs.len() <= u32::MAX,
        order::is_order(table::time_keys(rs), p),
        forall|m: int| 0 <= m < rs.len() ==> !order::nan64((#[trigger] rs[m]).time),
        i < rs.len(),
    ensures
        in_rows(
            rows_of(subs, rs, p, late),
            band_of(subs, rs[i as int].subsystem),
            side_of(rs[i as int]),
            i as u32,
        ),
{
    assert(p.contains(i));
    let j = choose|j: int| 0 <= j < p.len() && p[j] == i;
    let n = p.len() as int;
    lemma_pairing_keeps(subs, rs, p, late, n, j);
    lemma_pairing_agrees(subs, rs, p, late, n);
    assert(subs.contains(rs[i as int].subsystem));
    lemma_band_of(subs, rs[i as int].subsystem);
    let st = pairing(subs, rs, p, late, n);
    let b = band_of(subs, rs[i as int].subsystem);
    lemma_flush_keeps(st, b, side_of(rs[i as int]), i as u32);
}

/// Whether slot `side` of band `b` in row `j` of a pairing holds record `i`; the
/// open row counts as the one behind the closed ones.
spec fn slot_holds(p: Pairing, j: int, b: int, side: u8, i: u32) -> bool {
    &&& 0 <= b < p.open.len()
    &&& side <= 1
    &&& if j == p.rows.len() {
        p.open[b] matches Some(x) && row_holds(x, side, i)
    } else {
        0 <= j < p.rows.len() && row_holds(p.rows[j][b], side, i)
    }
}

/// Whether what the slots of a pairing hold are some of the first `k` records in
/// time order, each in its band and on its side, and none in two rows.
spec fn slots_are_single(
    q: Pairing,
    subs: Seq<u8>,
    rs: Seq<PingRecord>,
    p: Seq<usize>,
    k: int,
) -> bool {
    &&& q.open.len() == subs.len()
    &&& forall|j: int, b: int, side: u8, i: u32| #[trigger]
        slot_holds(q, j, b, side, i) ==> {
            &&& i < rs.len()
            &&& b == band_of(subs, rs[i as int].subsystem)
            &&& side == side_of(rs[i as int])
            &&& exists|m: int| 0 <= m < k && #[trigger] p[m] == i
        }
    &&& forall|j: int, l: int, b: int, side: u8, i: u32| #[trigger]
        slot_holds(q, j, b, side, i) && #[trigger] slot_holds(q, l, b, side, i) ==> j == l
}

/// Closing a row puts no record where it was not before.
proof fn lemma_flush_adds_nothing(p: Pairing, j: int, b: int, side: u8, i: u32)
    requires
        slot_holds(flushed(p), j, b, side, i),
    ensures
        slot_holds(p, j, b, side, i),
{
    lemma_first_open(p.open);
    let q = flushed(p);
    if first_open(p.open) < p.open.len() {
        if j < p.rows.len() {
            assert(q.rows[j] == p.rows[j]);
        } else if j == p.rows.len() {
            assert(q.rows[j] == closed_row(p.open));
        } else {
            assert(q.open[b] is None);
        }
    }
}

proof fn lemma_flush_single(
    q: Pairing,
    subs: Seq<u8>,
    rs: Seq<PingRecord>,
    p: Seq<usize>,
    k: int,
)
    requires
        slots_are_single(q, subs, rs, p, k),
    ensures
        slots_are_single(flushed(q), subs, rs, p, k),
{
    let f = flushed(q);
    assert forall|j: int, b: int, side: u8, i: u32| #[trigger] slot_holds(f, j, b, side, i) implies {
        &&& i < rs.len()
        &&& b == band_of(subs, rs[i as int].subsystem)
        &&& side == side_of(rs[i as int])
        &&& exists|m: int| 0 <= m < k && #[trigger] p[m] == i
    } by {
        lemma_flush_adds_nothing(q, j, b, side, i);
        assert(slot_holds(q, j, b, side, i));
    }
    assert forall|j: int, l: int, b: int, side: u8, i: u32| #[trigger]
        slot_holds(f, j, b, side, i) && #[trigger] slot_holds(f, l, b, side, i) implies j == l by {
        lemma_flush_adds_nothing(q, j, b, side, i);
        lemma_flush_adds_nothing(q, l, b, side, i);
        assert(slot_holds(q, j, b, side, i) && slot_holds(q, l, b, side, i));
    }
}

proof fn lemma_pairing_single(
    subs: Seq<u8>,
    rs: Seq<PingRecord>,
    p: Seq<usize>,
    late: Seq<usize>,
    k: int,
)
    requires
        0 <= k <= p.len(),
        bands_cover(subs, rs),
        rs.len() <= u32::MAX,
        order::is_order(table::time_keys(rs), p),
    ensures
        slots_are_single(pairing(subs, rs, p, late, k), subs, rs, p, k),
    decreases k,
{
    let now = pairing(subs, rs, p, late, k);
    if k > 0 {
        let was = pairing(subs, rs, p, late, k - 1);
        let r = rs[p[k - 1] as int];
        let x = p[k - 1] as u32;
        lemma_pairing_single(subs, rs, p, late, k - 1);
        lemma_flush_single(was, subs, rs, p, k - 1);
        assert(subs.contains(r.subsystem));
        lemma_band_of(subs, r.subsystem);
        let c = band_of(subs, r.subsystem);
        let mid = if was.start is Some && (late[was.start->0] == k - 1 || slot_taken(
            was.open,
            c,
            r,
        )) {
            flushed(was)
        } else {
            was
        };
        assert(slots_are_single(mid, subs, rs, p, k - 1));
        assert(now == paired_with(was, subs, r, x, k - 1, late));
        assert(now.rows == mid.rows);
        assert(now.open == mid.open.update(c, Some(filled_slot(mid.open[c], r, x))));
        // only the new record is where it was not before
        assert forall|j: int, b: int, side: u8, i: u32| #[trigger]
            slot_holds(now, j, b, side, i) implies slot_holds(mid, j, b, side, i) || (i == x && j
            == now.rows.len() && b == c && side == side_of(r)) by {}
        assert forall|j: int, b: int, side: u8, i: u32| #[trigger]
            slot_holds(mid, j, b, side, i) implies i != x by {
            let m = choose|m: int| 0 <= m < k - 1 && #[trigger] p[m] == i;
            assert(p[m] != p[k - 1]);
        }
        assert forall|j: int, b: int, side: u8, i: u32| #[trigger]
            slot_holds(now, j, b, side, i) implies {
            &&& i < rs.len()
            &&& b == band_of(subs, rs[i as int].subsystem)
            &&& side == side_of(rs[i as int])
            &&& exists|m: int| 0 <= m < k && #[trigger] p[m] == i
        } by {
            if slot_holds(mid, j, b, side, i) {
                let m = choose|m: int| 0 <= m < k - 1 && #[trigger] p[m] == i;
                assert(0 <= m < k && p[m] == i);
            } else {
                assert(p[k - 1] == i);
            }
        }
        assert forall|j: int, l: int, b: int, side: u8, i: u32| #[trigger]
            slot_holds(now, j, b, side, i) && #[trigger] slot_holds(
            now,
            l,
            b,
            side,
            i,
        ) implies j == l by {
            if i != x {
                assert(slot_holds(mid, j, b, side, i) && slot_holds(mid, l, b, side, i));
            }
        }
    }
}

/// Whether slot `side` of band `b` in row `j` holds record `i`.
pub open spec fn stands_in(rows: Seq<Seq<Row>>, j: int, b: int, side: u8, i: u32) -> bool {
    &&& 0 <= j < rows.len()
    &&& 0 <= b < rows[j].len()
    &&& side <= 1
    &&& row_holds(rows[j][b], side, i)
}

/// Every record stands in at most one slot of all rows and bands, one of its own
/// band and side; and in exactly one where all times are known.
pub proof fn law_pings_stand_once(
    subs: Seq<u8>,
    rs: Seq<PingRecord>,
    p: Seq<usize>,
    late: Seq<usize>,
    i: usize,
)
    requires
        bands_cover(subs, rs),
        rs.len() <= u32::MAX,
        order::is_order(table::time_keys(rs), p),
        i < rs.len(),
    ensures
        ({
            let rows = rows_of(subs, rs, p, late);
            let band = band_of(subs, rs[i as int].subsystem);
            let own = side_of(rs[i as int]);
            &&& forall|j: int, b: int, side: u8| #[trigger]
                stands_in(rows, j, b, side, i as u32) ==> b == band && side == own
            &&& forall|j: int, l: int| #[trigger]
                stands_in(rows, j, band, own, i as u32) && #[trigger] stands_in(
                    rows,
                    l,
                    band,
                    own,
                    i as u32,
                ) ==> j == l
            &&& (forall|m: int| 0 <= m < rs.len() ==> !order::nan64((#[trigger] rs[m]).time))
                ==> exists|j: int| #[trigger] stands_in(rows, j, band, own, i as u32)
        }),
{
    let rows = rows_of(subs, rs, p, late);
    let band = band_of(subs, rs[i as int].subsystem);
    let own = side_of(rs[i as int]);
    let x = i as u32;
    let n = p.len() as int;
    let st = flushed(pairing(subs, rs, p, late, n));
    lemma_pairing_single(subs, rs, p, late, n);
    lemma_flush_single(pairing(subs, rs, p, late, n), subs, rs, p, n);
    law_bands_share_rows(subs, rs, p, late);
    assert forall|j: int, b: int, side: u8| #[trigger] stands_in(rows, j, b, side, x) implies b
        == band && side == own by {
        assert(slot_holds(st, j, b, side, x));
    }
    assert forall|j: int, l: int| #[trigger]
        stands_in(rows, j, band, own, x) && #[trigger] stands_in(
        rows,
        l,
        band,
        own,
        x,
    ) implies j == l by {
        assert(slot_holds(st, j, band, own, x) && slot_holds(st, l, band, own, x));
    }
    if forall|m: int| 0 <= m < rs.len() ==> !order::nan64((#[trigger] rs[m]).time) {
        law_pairing_keeps_pings(subs, rs, p, late, i);
        let j = choose|j: int| 0 <= j < rows.len() && row_holds(#[trigger] rows[j][band], own, x);
        assert(subs.contains(rs[i as int].subsystem));
        lemma_band_of(subs, rs[i as int].subsystem);
        assert(stands_in(rows, j, band, own, x));
    }
}

/// The time that a record of some stands at, as a place in the order of times.
spec fn time_key(rs: Seq<PingRecord>, i: u32) -> int {
    table::time_keys(rs)[i as int] as int
}

/// Whether the rows of a pairing, the open one with them, are in order of time,
/// and all before the records that are still to come from position `k` on.
spec fn rows_rise(q: Pairing, rs: Seq<PingRecord>, p: Seq<usize>, k: int) -> bool {
    &&& forall|j: int, b: int|
        0 <= j < q.rows.len() && 0 <= b < q.open.len() ==> (#[trigger] q.rows[j][b]).at < rs.len()
    &&& forall|b: int|
        0 <= b < q.open.len() && #[trigger] q.open[b] is Some ==> (q.open[b]->0).at < rs.len()
    &&& forall|j: int, b: int, l: int, c: int|
        0 <= j <= l < q.rows.len() && 0 <= b < q.open.len() && 0 <= c < q.open.len() ==> time_key(
            rs,
            (#[trigger] q.rows[j][b]).at,
        ) <= time_key(rs, (#[trigger] q.rows[l][c]).at)
    &&& forall|j: int, b: int, c: int|
        0 <= j < q.rows.len() && 0 <= b < q.open.len() && 0 <= c < q.open.len()
            && #[trigger] q.open[c] is Some ==> time_key(rs, (#[trigger] q.rows[j][b]).at)
            <= time_key(rs, (q.open[c]->0).at)
    &&& forall|j: int, b: int, m: int|
        0 <= j < q.rows.len() && 0 <= b < q.open.len() && k <= m < p.len() ==> time_key(
            rs,
            (#[trigger] q.rows[j][b]).at,
        ) <= time_key(rs, #[trigger] p[m] as u32)
    &&& forall|b: int, m: int|
        0 <= b < q.open.len() && #[trigger] q.open[b] is Some && k <= m < p.len() ==> time_key(
            rs,
            (q.open[b]->0).at,
        ) <= time_key(rs, #[trigger] p[m] as u32)
}

proof fn lemma_flush_rises(q: Pairing, rs: Seq<PingRecord>, p: Seq<usize>, k: int)
    requires
        rows_rise(q, rs, p, k),
        rows_agree(q.rows, q.open.len()),
    ensures
        rows_rise(flushed(q), rs, p, k),
{
    lemma_first_open(q.open);
    let f = flushed(q);
    let first = first_open(q.open);
    if first < q.open.len() {
        let z = q.rows.len() as int;
        let at = (q.open[first]->0).at;
        assert(f.rows[z] == closed_row(q.open));
        assert forall|b: int| 0 <= b < q.open.len() implies (#[trigger] f.rows[z][b]).at == at by {}
        assert forall|j: int| 0 <= j < z implies #[trigger] f.rows[j] == q.rows[j] by {}
        assert forall|j: int, b: int|
            0 <= j < f.rows.len() && 0 <= b < f.open.len() implies (#[trigger] f.rows[j][b]).at
            < rs.len() by {
            if j < z {
                assert(q.rows[j][b].at < rs.len());
            }
        }
        assert forall|j: int, b: int, l: int, c: int|
            0 <= j <= l < f.rows.len() && 0 <= b < f.open.len() && 0 <= c
                < f.open.len() implies time_key(rs, (#[trigger] f.rows[j][b]).at) <= time_key(
            rs,
            (#[trigger] f.rows[l][c]).at,
        ) by {
            if j < z {
                assert(f.rows[j][b] == q.rows[j][b]);
                if l < z {
                    assert(f.rows[l][c] == q.rows[l][c]);
                }
            }
        }
        assert forall|j: int, b: int, m: int|
            0 <= j < f.rows.len() && 0 <= b < f.open.len() && k <= m < p.len() implies time_key(
            rs,
            (#[trigger] f.rows[j][b]).at,
        ) <= time_key(rs, #[trigger] p[m] as u32) by {
            if j < z {
                assert(f.rows[j][b] == q.rows[j][b]);
            }
        }
    }
}

proof fn lemma_pairing_rises(
    subs: Seq<u8>,
    rs: Seq<PingRecord>,
    p: Seq<usize>,
    late: Seq<usize>,
    k: int,
)
    requires
        0 <= k <= p.len(),
        bands_cover(subs, rs),
        rs.len() <= u32::MAX,
        order::is_order(table::time_keys(rs), p),
    ensures
        rows_rise(pairing(subs, rs, p, late, k), rs, p, k),
    decreases k,
{
    if k > 0 {
        let was = pairing(subs, rs, p, late, k - 1);
        let now = pairing(subs, rs, p, late, k);
        let r = rs[p[k - 1] as int];
        let x = p[k - 1] as u32;
        lemma_pairing_rises(subs, rs, p, late, k - 1);
        lemma_pairing_agrees(subs, rs, p, late, k - 1);
        lemma_flush_rises(was, rs, p, k - 1);
        assert(subs.contains(r.subsystem));
        lemma_band_of(subs, r.subsystem);
        let b = band_of(subs, r.subsystem);
        let mid = if was.start is Some && (late[was.start->0] == k - 1 || slot_taken(
            was.open,
            b,
            r,
        )) {
            flushed(was)
        } else {
            was
        };
        assert(rows_rise(mid, rs, p, k - 1));
        assert(now == paired_with(was, subs, r, x, k - 1, late));
        let slot = filled_slot(mid.open[b], r, x);
        assert(now.rows == mid.rows && now.open == mid.open.update(b, Some(slot)));
        assert(slot.at == if mid.open[b] is Some {
            (mid.open[b]->0).at
        } else {
            x
        });
        assert forall|m: int| k - 1 <= m < p.len() implies time_key(rs, x) <= time_key(
            rs,
            #[trigger] p[m] as u32,
        ) by {
            if m > k - 1 {
                assert(order::before(table::time_keys(rs), p[k - 1] as int, p[m] as int));
            }
        }
    }
}

/// The rows of a recording are in order of time: the record that stands for a
/// row comes no later in time than the one of any row behind it.
pub proof fn law_rows_are_in_time(
    subs: Seq<u8>,
    rs: Seq<PingRecord>,
    p: Seq<usize>,
    late: Seq<usize>,
    j: int,
    b: int,
    l: int,
    c: int,
)
    requires
        bands_cover(subs, rs),
        rs.len() <= u32::MAX,
        order::is_order(table::time_keys(rs), p),
        0 <= j <= l < rows_of(subs, rs, p, late).len(),
        0 <= b < subs.len(),
        0 <= c < subs.len(),
    ensures
        ({
            let rows = rows_of(subs, rs, p, late);
            let (x, y) = (rows[j][b].at, rows[l][c].at);
            &&& x < rs.len()
            &&& y < rs.len()
            &&& order::total_key(rs[x as int].time) <= order::total_key(rs[y as int].time)
            &&& !order::less64(rs[y as int].time, rs[x as int].time)
        }),
{
    let n = p.len() as int;
    let st = pairing(subs, rs, p, late, n);
    lemma_pairing_rises(subs, rs, p, late, n);
    lemma_pairing_agrees(subs, rs, p, late, n);
    lemma_flush_rises(st, rs, p, n);
    lemma_flush_agrees(st, subs.len());
    let f = flushed(st);
    let (x, y) = (f.rows[j][b].at, f.rows[l][c].at);
    assert(time_key(rs, x) <= time_key(rs, y));
}

/// Whether record `i` stands in the order from position `from` on and before
/// position `to`.
pub open spec fn stands_between(p: Seq<usize>, i: u32, from: int, to: int) -> bool {
    exists|m: int| from <= m < to && 0 <= m < p.len() && #[trigger] p[m] == i
}

/// Whether all that row `j` of a pairing holds comes before what is too late for a
/// row that is opened at position `s`.
spec fn one_moment(q: Pairing, p: Seq<usize>, j: int, s: int, to: int) -> bool {
    forall|b: int, side: u8, i: u32| #[trigger]
        slot_holds(q, j, b, side, i) ==> stands_between(p, i, s, to)
}

spec fn some_moment(q: Pairing, p: Seq<usize>, late: Seq<usize>, j: int) -> bool {
    exists|s: int| 0 <= s < p.len() && #[trigger] one_moment(q, p, j, s, late[s] as int)
}

spec fn rows_are_moments(q: Pairing, p: Seq<usize>, late: Seq<usize>, k: int) -> bool {
    &&& forall|j: int| 0 <= j < q.rows.len() ==> #[trigger] some_moment(q, p, late, j)
    &&& q.start matches Some(s) ==> 0 <= s < k && k <= late[s] && one_moment(
        q,
        p,
        q.rows.len() as int,
        s,
        k,
    )
    &&& q.start is None ==> forall|b: int| 0 <= b < q.open.len() ==> #[trigger] q.open[b] is None
}

proof fn lemma_later_moment(q: Pairing, p: Seq<usize>, j: int, s: int, k: int, to: int)
    requires
        one_moment(q, p, j, s, k),
        k <= to,
    ensures
        one_moment(q, p, j, s, to),
{
    assert forall|b: int, side: u8, i: u32| #[trigger]
        slot_holds(q, j, b, side, i) implies stands_between(p, i, s, to) by {
        assert(stands_between(p, i, s, k));
        let m = choose|m: int| s <= m < k && 0 <= m < p.len() && #[trigger] p[m] == i;
        assert(s <= m < to && p[m] == i);
    }
}

proof fn lemma_flush_moments(q: Pairing, p: Seq<usize>, late: Seq<usize>, k: int)
    requires
        rows_are_moments(q, p, late, k),
        k <= p.len(),
    ensures
        rows_are_moments(flushed(q), p, late, k),
{
    let f = flushed(q);
    lemma_first_open(q.open);
    assert forall|j: int| 0 <= j < f.rows.len() implies #[trigger] some_moment(f, p, late, j) by {
        let s = if j < q.rows.len() {
            assert(some_moment(q, p, late, j));
            choose|s: int| 0 <= s < p.len() && #[trigger] one_moment(q, p, j, s, late[s] as int)
        } else {
            q.start->0
        };
        if j >= q.rows.len() {
            assert(j == q.rows.len());
            assert(q.open[first_open(q.open)] is Some);
            assert(q.start is Some);
            lemma_later_moment(q, p, j, s, k, late[s] as int);
        }
        assert forall|b: int, side: u8, i: u32| #[trigger]
            slot_holds(f, j, b, side, i) implies stands_between(p, i, s, late[s] as int) by {
            lemma_flush_adds_nothing(q, j, b, side, i);
        }
        assert(one_moment(f, p, j, s, late[s] as int));
    }
}

proof fn lemma_pairing_moments(
    subs: Seq<u8>,
    rs: Seq<PingRecord>,
    p: Seq<usize>,
    late: Seq<usize>,
    k: int,
)
    requires
        0 <= k <= p.len(),
        late.len() == p.len(),
        forall|m: int| 0 <= m < p.len() ==> m < #[trigger] late[m],
        bands_cover(subs, rs),
        rs.len() <= u32::MAX,
        order::is_order(table::time_keys(rs), p),
        forall|m: int| 0 <= m < rs.len() ==> !order::nan64((#[trigger] rs[m]).time),
    ensures
        rows_are_moments(pairing(subs, rs, p, late, k), p, late, k),
    decreases k,
{
    let now = pairing(subs, rs, p, late, k);
    if k > 0 {
        let was = pairing(subs, rs, p, late, k - 1);
        let r = rs[p[k - 1] as int];
        let x = p[k - 1] as u32;
        lemma_pairing_moments(subs, rs, p, late, k - 1);
        lemma_pairing_agrees(subs, rs, p, late, k - 1);
        lemma_flush_moments(was, p, late, k - 1);
        assert(subs.contains(r.subsystem));
        lemma_band_of(subs, r.subsystem);
        let c = band_of(subs, r.subsystem);
        let mid = if was.start is Some && (late[was.start->0] == k - 1 || slot_taken(
            was.open,
            c,
            r,
        )) {
            flushed(was)
        } else {
            was
        };
        assert(rows_are_moments(mid, p, late, k - 1));
        assert(now == paired_with(was, subs, r, x, k - 1, late));
        assert(now.rows == mid.rows);
        assert(now.open == mid.open.update(c, Some(filled_slot(mid.open[c], r, x))));
        let z = now.rows.len() as int;
        let s = now.start->0;
        assert(now.start is Some);
        assert(mid.start is Some ==> mid.start == now.start && late[s] != k - 1);
        assert(mid.start is None ==> s == k - 1);
        assert(k <= late[s]);
        assert forall|j: int, b: int, side: u8, i: u32| #[trigger]
            slot_holds(now, j, b, side, i) implies slot_holds(mid, j, b, side, i) || (i == x && j
            == z) by {}
        assert forall|j: int| 0 <= j < z implies #[trigger] some_moment(now, p, late, j) by {
            assert(some_moment(mid, p, late, j));
            let s = choose|s: int|
                0 <= s < p.len() && #[trigger] one_moment(mid, p, j, s, late[s] as int);
            assert(one_moment(now, p, j, s, late[s] as int));
        }
        assert forall|b: int, side: u8, i: u32| #[trigger]
            slot_holds(now, z, b, side, i) implies stands_between(p, i, s, k) by {
            if i == x {
                assert(s <= k - 1 < k && p[k - 1] == i);
            } else {
                assert(slot_holds(mid, z, b, side, i));
                assert(mid.start is Some);
                assert(stands_between(p, i, s, k - 1));
                let m = choose|m: int|
                    s <= m < k - 1 && 0 <= m < p.len() && #[trigger] p[m] == i;
                assert(s <= m < k && p[m] == i);
            }
        }
    }
}

/// A row is one moment: all that it holds, in whatever band, comes at or behind
/// the ping that opened it and before the first that is too late for it.
pub proof fn law_row_is_one_moment(
    subs: Seq<u8>,
    rs: Seq<PingRecord>,
    p: Seq<usize>,
    late: Seq<usize>,
    j: int,
)
    requires
        late.len() == p.len(),
        forall|m: int| 0 <= m < p.len() ==> m < #[trigger] late[m],
        bands_cover(subs, rs),
        rs.len() <= u32::MAX,
        order::is_order(table::time_keys(rs), p),
        forall|m: int| 0 <= m < rs.len() ==> !order::nan64((#[trigger] rs[m]).time),
        0 <= j < rows_of(subs, rs, p, late).len(),
    ensures
        exists|s: int|
            0 <= s < p.len() && forall|b: int, side: u8, i: u32| #[trigger]
                stands_in(rows_of(subs, rs, p, late), j, b, side, i) ==> stands_between(
                    p,
                    i,
                    s,
                    #[trigger] late[s] as int,
                ),
{
    let n = p.len() as int;
    lemma_pairing_moments(subs, rs, p, late, n);
    lemma_pairing_agrees(subs, rs, p, late, n);
    let st = pairing(subs, rs, p, late, n);
    lemma_flush_moments(st, p, late, n);
    lemma_flush_agrees(st, subs.len());
    let f = flushed(st);
    let rows = rows_of(subs, rs, p, late);
    assert(some_moment(f, p, late, j));
    let s = choose|s: int| 0 <= s < p.len() && #[trigger] one_moment(f, p, j, s, late[s] as int);
    assert forall|b: int, side: u8, i: u32| #[trigger]
        stands_in(rows, j, b, side, i) implies stands_between(p, i, s, late[s] as int) by {
        assert(slot_holds(f, j, b, side, i));
    }
    assert(late[s] == late[s]);
}

/// Whether a row holds a record on either side.
pub open spec fn holds_at(x: Row, i: u32) -> bool {
    x.port == Some(i) || x.stbd == Some(i)
}

/// Whether some band of a row holds a record.
pub open spec fn held_in_row(row: Seq<Row>, i: u32) -> bool {
    exists|b: int| 0 <= b < row.len() && holds_at(#[trigger] row[b], i)
}

spec fn stands_for_own(row: Seq<Row>, c: int) -> bool {
    held_in_row(row, row[c].at)
}

spec fn rows_hold_theirs(q: Pairing) -> bool {
    &&& forall|j: int, c: int|
        0 <= j < q.rows.len() && 0 <= c < q.open.len() ==> #[trigger] stands_for_own(q.rows[j], c)
    &&& forall|b: int|
        0 <= b < q.open.len() && (#[trigger] q.open[b]) is Some ==> holds_at(
            q.open[b]->0,
            (q.open[b]->0).at,
        )
    &&& q.start is None ==> forall|b: int| 0 <= b < q.open.len() ==> #[trigger] q.open[b] is None
}

proof fn lemma_flush_holds(q: Pairing)
    requires
        rows_hold_theirs(q),
    ensures
        rows_hold_theirs(flushed(q)),
        flushed(q).open.len() == q.open.len(),
{
    let f = flushed(q);
    lemma_first_open(q.open);
    let first = first_open(q.open);
    if first < q.open.len() {
        let z = q.rows.len() as int;
        assert forall|j: int, c: int|
            0 <= j < f.rows.len() && 0 <= c < f.open.len() implies #[trigger] stands_for_own(
            f.rows[j],
            c,
        ) by {
            if j < z {
                assert(f.rows[j] == q.rows[j]);
                assert(stands_for_own(q.rows[j], c));
            } else {
                assert(f.rows[z] == closed_row(q.open));
                assert(q.open[first as int] is Some);
                assert(holds_at(f.rows[j][first as int], f.rows[j][c].at));
            }
        }
    }
}

proof fn lemma_pairing_holds(
    subs: Seq<u8>,
    rs: Seq<PingRecord>,
    p: Seq<usize>,
    late: Seq<usize>,
    k: int,
)
    requires
        0 <= k <= p.len(),
        bands_cover(subs, rs),
        rs.len() <= u32::MAX,
        order::is_order(table::time_keys(rs), p),
        forall|m: int| 0 <= m < rs.len() ==> !order::nan64((#[trigger] rs[m]).time),
    ensures
        rows_hold_theirs(pairing(subs, rs, p, late, k)),
    decreases k,
{
    if k > 0 {
        let was = pairing(subs, rs, p, late, k - 1);
        let now = pairing(subs, rs, p, late, k);
        let r = rs[p[k - 1] as int];
        let x = p[k - 1] as u32;
        lemma_pairing_holds(subs, rs, p, late, k - 1);
        lemma_pairing_agrees(subs, rs, p, late, k - 1);
        lemma_flush_holds(was);
        assert(subs.contains(r.subsystem));
        lemma_band_of(subs, r.subsystem);
        let c = band_of(subs, r.subsystem);
        let mid = if was.start is Some && (late[was.start->0] == k - 1 || slot_taken(
            was.open,
            c,
            r,
        )) {
            flushed(was)
        } else {
            was
        };
        assert(rows_hold_theirs(mid));
        assert(now == paired_with(was, subs, r, x, k - 1, late));
        assert(now.open == mid.open.update(c, Some(filled_slot(mid.open[c], r, x))));
        assert(now.rows == mid.rows);
        assert forall|j: int, b: int|
            0 <= j < now.rows.len() && 0 <= b < now.open.len() implies #[trigger] stands_for_own(
            now.rows[j],
            b,
        ) by {
            assert(stands_for_own(mid.rows[j], b));
        }
        assert forall|b: int| 0 <= b < now.open.len() && (#[trigger] now.open[b]) is Some implies
            holds_at(now.open[b]->0, (now.open[b]->0).at) by {
            if b != c {
                assert(now.open[b] == mid.open[b]);
            } else {
                assert(mid.open[c] is Some ==> holds_at(mid.open[c]->0, (mid.open[c]->0).at));
            }
        }
    }
}

/// The record that stands for a row is one of those that the row holds.
pub proof fn law_row_stands_for_its_own(
    subs: Seq<u8>,
    rs: Seq<PingRecord>,
    p: Seq<usize>,
    late: Seq<usize>,
    j: int,
    c: int,
)
    requires
        bands_cover(subs, rs),
        rs.len() <= u32::MAX,
        order::is_order(table::time_keys(rs), p),
        forall|m: int| 0 <= m < rs.len() ==> !order::nan64((#[trigger] rs[m]).time),
        0 <= j < rows_of(subs, rs, p, late).len(),
        0 <= c < subs.len(),
    ensures
        held_in_row(rows_of(subs, rs, p, late)[j], rows_of(subs, rs, p, late)[j][c].at),
{
    let n = p.len() as int;
    lemma_pairing_holds(subs, rs, p, late, n);
    lemma_pairing_agrees(subs, rs, p, late, n);
    let st = pairing(subs, rs, p, late, n);
    lemma_flush_holds(st);
    let f = flushed(st);
    assert(stands_for_own(f.rows[j], c));
}

} // verus!
