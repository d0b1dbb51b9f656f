//! The command line: what was asked for, and what a run over the chart tiles
//! of a survey area comes to.

use vstd::prelude::*;

use crate::grid;
use crate::names;
use crate::names::{among, is_before};
use crate::server::queue;
use crate::server::queue::Key;
use crate::server::url::Query;
use crate::text;
use crate::text::{chars_of, copy, find_char, parse_unsigned, part, same, text_of};

verus! {

/// What the command is told to do, and how.
pub const USAGE: &'static str = r#"swath — sidescan survey viewer

  swath serve [--root DIR] [--port N] [--ui DIR]
      Start the viewer. Defaults to a free port on 127.0.0.1.

  swath index <dataset> [--root DIR] [--force]
      Build the ping index for a recording.

  swath mosaic <dataset> [--subsystem N] [--zoom N] [--force] [--model M]
      Build the georeferenced mosaic.

  swath layer <file.tif|file.gpx> [--out FILE] [--zoom N] [--preview PNG]
      Import a layer: resample a GeoTIFF onto the chart grid, or read a GPX,
      and report what it holds.

  swath info <dataset>
      Summarise a recording.

  swath report <project> [--out FILE]
      Render the survey report as HTML.

  swath tiles [<dataset>...] [--zoom 10-18] [--layers osm,seamark]
      Pre-fetch chart tiles over the survey area so the viewer works with no
      connection. Paced, and it will not bulk-download.

  swath fixtures <dir> [--dataset NAME] [--pings N]
      Dump what this code computes, in the schema the frozen fixtures use.
"#;

/// Whether a flag stands alone; any other takes the word behind it.
pub open spec fn is_switch(k: Seq<char>) -> bool {
    k == "force"@ || k == "open"@ || k == "yes"@
}

/// The words of a command line that are not flags, and the flags with their
/// values.
pub open spec fn sorted_out(a: Seq<Seq<char>>) -> (Seq<Seq<char>>, Seq<(Seq<char>, Seq<char>)>)
    decreases a.len(),
{
    if a.len() == 0 {
        (Seq::empty(), Seq::empty())
    } else if a[0].len() >= 2 && a[0][0] == '-' && a[0][1] == '-' {
        let k = a[0].skip(2);
        if is_switch(k) {
            let (rest, flags) = sorted_out(a.skip(1));
            (rest, seq![(k, "1"@)] + flags)
        } else if a.len() == 1 {
            (Seq::empty(), seq![(k, Seq::empty())])
        } else {
            let (rest, flags) = sorted_out(a.skip(2));
            (rest, seq![(k, a[1])] + flags)
        }
    } else {
        let (rest, flags) = sorted_out(a.skip(1));
        (seq![a[0]] + rest, flags)
    }
}

/// A command line, taken apart.
pub struct Args {
    pub cmd: String,
    pub rest: Vec<String>,
    pub flags: Query,
}

fn flag_of(v: &Vec<char>) -> (r: Option<Vec<char>>)
    ensures
        r is Some == (v@.len() >= 2 && v@[0] == '-' && v@[1] == '-'),
        r matches Some(k) ==> k@ == v@.skip(2),
{
    if v.len() >= 2 && v[0] == '-' && v[1] == '-' {
        let k = part(v, 2, v.len());
        proof {
            assert(k@ =~= v@.skip(2));
        }
        Some(k)
    } else {
        None
    }
}

/// Take a command line apart: the first word is the command, and of the rest
/// those that start with two dashes are flags.
pub fn parse(words: &Vec<String>) -> (a: Args)
    ensures
        a.cmd@ == (if words@.len() == 0 {
            Seq::<char>::empty()
        } else {
            words@[0]@
        }),
        words@.len() == 0 ==> a.rest@.len() == 0 && a.flags@.len() == 0,
        words@.len() > 0 ==> (names::views(a.rest@), a.flags@) == sorted_out(
            names::views(words@).skip(1),
        ),
{
    let mut rest: Vec<String> = Vec::new();
    let mut flags = Query::new();
    if words.len() == 0 {
        let cmd = String::new();
        proof {
            assert(cmd@ =~= Seq::empty());
        }
        return Args { cmd, rest, flags };
    }
    let cmd = copy(words[0].as_str());
    let ghost all = names::views(words@);
    let ghost whole = sorted_out(all.skip(1));
    let mut i: usize = 1;
    proof {
        assert(names::views(rest@) + whole.0 =~= whole.0);
        assert(flags@ + whole.1 =~= whole.1);
    }
    while i < words.len()
        invariant
            1 <= i <= words@.len(),
            all == names::views(words@),
            (names::views(rest@) + sorted_out(all.skip(i as int)).0, flags@ + sorted_out(
                all.skip(i as int),
            ).1) == whole,
        decreases words.len() - i,
    {
        let ghost left = all.skip(i as int);
        let ghost before = names::views(rest@);
        let ghost set = flags@;
        proof {
            assert(left[0] == words@[i as int]@);
            assert(left.skip(1) =~= all.skip(i + 1));
        }
        let v = chars_of(words[i].as_str());
        match flag_of(&v) {
            Some(k) => {
                let key = text_of(&k);
                if same(key.as_str(), "force") || same(key.as_str(), "open") || same(
                    key.as_str(),
                    "yes",
                ) {
                    let ghost pair = (key@, "1"@);
                    flags.set(key, copy("1"));
                    i += 1;
                    proof {
                        let tail = sorted_out(left.skip(1)).1;
                        assert(set.push(pair) + tail =~= set + (seq![pair] + tail));
                    }
                } else if i + 1 == words.len() {
                    let none = String::new();
                    let ghost pair = (key@, none@);
                    proof {
                        assert(none@ =~= Seq::empty());
                        assert(left.len() == 1);
                    }
                    flags.set(key, none);
                    i += 1;
                    proof {
                        assert(all.skip(i as int) =~= Seq::empty());
                        assert(set.push(pair) + Seq::empty() =~= set + seq![pair]);
                    }
                } else {
                    let value = copy(words[i + 1].as_str());
                    let ghost pair = (key@, value@);
                    proof {
                        assert(left[1] == words@[i + 1]@);
                        assert(left.skip(2) =~= all.skip(i + 2));
                    }
                    flags.set(key, value);
                    i += 2;
                    proof {
                        let tail = sorted_out(left.skip(2)).1;
                        assert(set.push(pair) + tail =~= set + (seq![pair] + tail));
                    }
                }
            },
            None => {
                let w = copy(words[i].as_str());
                let ghost word = w@;
                rest.push(w);
                i += 1;
                proof {
                    let tail = sorted_out(left.skip(1)).0;
                    assert(names::views(rest@) =~= before.push(word));
                    assert(before.push(word) + tail =~= before + (seq![word] + tail));
                }
            },
        }
    }
    proof {
        assert(all.skip(i as int) =~= Seq::empty());
        assert(names::views(rest@) + Seq::empty() =~= names::views(rest@));
        assert(flags@ + Seq::empty() =~= flags@);
    }
    Args { cmd, rest, flags }
}

/// What a command line asks for.
#[derive(Clone, Copy, PartialEq, Eq, Structural)]
pub enum Command {
    Serve,
    Index,
    Mosaic,
    Layer,
    Info,
    Report,
    Fixtures,
    Tiles,
    Help,
    Unknown,
}

/// What the first word of a command line asks for.
pub open spec fn command_of(s: Seq<char>) -> Command {
    if s == "serve"@ {
        Command::Serve
    } else if s == "index"@ {
        Command::Index
    } else if s == "mosaic"@ {
        Command::Mosaic
    } else if s == "layer"@ {
        Command::Layer
    } else if s == "info"@ {
        Command::Info
    } else if s == "report"@ {
        Command::Report
    } else if s == "fixtures"@ {
        Command::Fixtures
    } else if s == "tiles"@ {
        Command::Tiles
    } else if s == ""@ || s == "-h"@ || s == "--help"@ || s == "help"@ {
        Command::Help
    } else {
        Command::Unknown
    }
}

/// What the first word of a command line asks for.
pub fn command(s: &str) -> (c: Command)
    ensures
        c == command_of(s@),
{
    if same(s, "serve") {
        Command::Serve
    } else if same(s, "index") {
        Command::Index
    } else if same(s, "mosaic") {
        Command::Mosaic
    } else if same(s, "layer") {
        Command::Layer
    } else if same(s, "info") {
        Command::Info
    } else if same(s, "report") {
        Command::Report
    } else if same(s, "fixtures") {
        Command::Fixtures
    } else if same(s, "tiles") {
        Command::Tiles
    } else if same(s, "") || same(s, "-h") || same(s, "--help") || same(s, "help") {
        Command::Help
    } else {
        Command::Unknown
    }
}

/// The recording that a command is about: its first word, which it needs.
pub fn dataset_arg(a: &Args) -> (r: Result<String, &'static str>)
    ensures
        a.rest@.len() > 0 ==> r is Ok && r->Ok_0@ == a.rest@[0]@,
        a.rest@.len() == 0 ==> r is Err && r->Err_0@ == "dataset name required"@,
{
    if a.rest.len() > 0 {
        Ok(copy(a.rest[0].as_str()))
    } else {
        Err("dataset name required")
    }
}

/// The deepest zoom level tiles are fetched ahead for.
pub const DEEPEST: u32 = 20;

/// Why a range of zoom levels is refused.
#[derive(Clone, Copy, PartialEq, Eq, Structural)]
pub enum ZoomError {
    /// It is not one number, nor two with a dash between.
    NotANumber,
    /// It runs backwards, or too deep.
    BadRange,
}

/// The range of zoom levels that a text asks for.
pub open spec fn zooms(s: Seq<char>) -> Result<(nat, nat), ZoomError> {
    let i = text::index_from(s, '-', 0);
    let (a, b) = if i < s.len() {
        (text::unsigned_of(s.take(i)), text::unsigned_of(s.skip(i + 1)))
    } else {
        (text::unsigned_of(s), text::unsigned_of(s))
    };
    match (a, b) {
        (Some(a), Some(b)) => if a > u32::MAX || b > u32::MAX {
            Err(ZoomError::NotANumber)
        } else if a > b || b > DEEPEST {
            Err(ZoomError::BadRange)
        } else {
            Ok((a, b))
        },
        _ => Err(ZoomError::NotANumber),
    }
}

/// Read a range of zoom levels: `12`, or `10-18`.
pub fn parse_zooms(s: &str) -> (r: Result<(u32, u32), ZoomError>)
    ensures
        match zooms(s@) {
            Ok(z) => r matches Ok(x) && x.0 == z.0 && x.1 == z.1,
            Err(e) => r matches Err(x) && x == e,
        },
{
    let v = chars_of(s);
    let i = find_char(&v, '-', 0);
    let (a, b) = if i < v.len() {
        let left = part(&v, 0, i);
        let right = part(&v, i + 1, v.len());
        proof {
            assert(left@ =~= v@.take(i as int));
            assert(right@ =~= v@.skip(i + 1));
        }
        (parse_unsigned(&left, u32::MAX as u64), parse_unsigned(&right, u32::MAX as u64))
    } else {
        (parse_unsigned(&v, u32::MAX as u64), parse_unsigned(&v, u32::MAX as u64))
    };
    match (a, b) {
        (Some(a), Some(b)) => if a > b || b > DEEPEST as u64 {
            Err(ZoomError::BadRange)
        } else {
            Ok((a as u32, b as u32))
        },
        _ => Err(ZoomError::NotANumber),
    }
}

/// The zoom level at which a layer is asked for: the overlays are not drawn
/// deeper than 18, and the base charts are.
pub fn layer_zoom(layer: &str, z: u32) -> (r: u32)
    ensures
        r == (if layer@ != "osm"@ && layer@ != "osmde"@ && layer@ != "topo"@ && z > 18 {
            18
        } else {
            z
        }),
{
    if !same(layer, "osm") && !same(layer, "osmde") && !same(layer, "topo") && z > 18 {
        18
    } else {
        z
    }
}

/// A row of tiles.
pub open spec fn tile_row(x0: int, x1: int, y: int) -> Seq<(i64, i64)> {
    Seq::new(
        (if x1 >= x0 {
            x1 - x0 + 1
        } else {
            0
        }) as nat,
        |i: int| ((x0 + i) as i64, y as i64),
    )
}

/// The tiles of a block, row by row.
pub open spec fn tile_rows(x0: int, x1: int, y0: int, y1: int) -> Seq<(i64, i64)>
    decreases y1 - y0 + 1,
{
    if y1 < y0 {
        Seq::empty()
    } else {
        tile_rows(x0, x1, y0, y1 - 1) + tile_row(x0, x1, y1)
    }
}

/// The larger of two numbers.
pub open spec fn at_least(a: int, b: int) -> int {
    if a < b {
        b
    } else {
        a
    }
}

/// The smaller of two numbers.
pub open spec fn at_most(a: int, b: int) -> int {
    if a > b {
        b
    } else {
        a
    }
}

/// The tiles between two corners that a zoom level has, row by row.
pub fn tiles_for(x0: i64, y0: i64, x1: i64, y1: i64, z: u32) -> (v: Vec<(i64, i64)>)
    requires
        z <= 54,
    ensures
        v@ == tile_rows(
            at_least(x0 as int, 0),
            at_most(x1 as int, grid::power(z as nat) - 1),
            at_least(y0 as int, 0),
            at_most(y1 as int, grid::power(z as nat) - 1),
        ),
{
    let n = grid::two_to(z);
    let ax: i64 = if x0 < 0 { 0 } else { x0 };
    let bx: i64 = if x1 > n - 1 { n - 1 } else { x1 };
    let ay: i64 = if y0 < 0 { 0 } else { y0 };
    let by: i64 = if y1 > n - 1 { n - 1 } else { y1 };
    let mut v: Vec<(i64, i64)> = Vec::new();
    if by < ay {
        return v;
    }
    let mut y: i64 = ay;
    proof {
        assert(v@ =~= tile_rows(ax as int, bx as int, ay as int, y - 1));
    }
    while y <= by
        invariant
            0 <= ax,
            bx < i64::MAX,
            by < i64::MAX,
            ay <= y <= by + 1,
            v@ == tile_rows(ax as int, bx as int, ay as int, y - 1),
        decreases by + 1 - y,
    {
        let ghost before = v@;
        let mut x: i64 = ax;
        while x <= bx
            invariant
                0 <= ax <= x,
                bx < i64::MAX,
                x <= bx + 1 || x == ax,
                v@ == before + tile_row(ax as int, bx as int, y as int).take(x - ax),
            decreases bx + 1 - x,
        {
            proof {
                let row = tile_row(ax as int, bx as int, y as int);
                assert(row.take(x + 1 - ax) =~= row.take(x - ax).push((x, y)));
            }
            v.push((x, y));
            x += 1;
        }
        proof {
            let row = tile_row(ax as int, bx as int, y as int);
            assert(row.take(x - ax) =~= row);
        }
        y += 1;
    }
    v
}

/// Every tile between the corners that the zoom level has is listed, and
/// nothing else is.
pub proof fn law_every_tile_is_listed(x0: int, x1: int, y0: int, y1: int, x: i64, y: i64)
    requires
        i64::MIN <= x0,
        x1 <= i64::MAX,
        i64::MIN <= y0,
        y1 <= i64::MAX,
    ensures
        tile_rows(x0, x1, y0, y1).contains((x, y)) == (x0 <= x <= x1 && y0 <= y <= y1),
    decreases y1 - y0 + 1,
{
    let all = tile_rows(x0, x1, y0, y1);
    if y1 >= y0 {
        let before = tile_rows(x0, x1, y0, y1 - 1);
        let row = tile_row(x0, x1, y1);
        law_every_tile_is_listed(x0, x1, y0, y1 - 1, x, y);
        if all.contains((x, y)) {
            let i = choose|i: int| 0 <= i < all.len() && all[i] == (x, y);
            if i < before.len() {
                assert(before[i] == (x, y));
            } else {
                assert(row[i - before.len()] == (x, y));
            }
        }
        if x0 <= x <= x1 && y0 <= y <= y1 {
            if y == y1 {
                assert(row[x - x0] == (x, y));
                assert(all[before.len() + (x - x0)] == (x, y));
            } else {
                let i = choose|i: int| 0 <= i < before.len() && before[i] == (x, y);
                assert(all[i] == (x, y));
            }
        }
    }
}

/// Which of two tiles comes first: by layer, then zoom level, column and row.
pub open spec fn key_less(
    a: (Seq<char>, u32, i64, i64),
    b: (Seq<char>, u32, i64, i64),
) -> bool {
    names::lex_less(a.0, b.0) || (a.0 == b.0 && (a.1 < b.1 || (a.1 == b.1 && (a.2 < b.2 || (a.2
        == b.2 && a.3 < b.3)))))
}

/// Tiles in order, none twice.
pub open spec fn in_key_order(s: Seq<(Seq<char>, u32, i64, i64)>) -> bool {
    forall|i: int, j: int| 0 <= i < j < s.len() ==> key_less(#[trigger] s[i], #[trigger] s[j])
}

proof fn lemma_key_order(
    a: (Seq<char>, u32, i64, i64),
    b: (Seq<char>, u32, i64, i64),
    c: (Seq<char>, u32, i64, i64),
)
    ensures
        key_less(a, b) && key_less(b, c) ==> key_less(a, c),
        key_less(a, b) || key_less(b, a) || a == b,
        !key_less(a, a),
        !(key_less(a, b) && key_less(b, a)),
{
    if !names::lex_less(a.0, b.0) && !names::lex_less(b.0, a.0) {
        names::lemma_lex_total(a.0, b.0);
    }
    names::lemma_lex_strict(a.0, b.0);
    names::lemma_lex_strict(b.0, a.0);
    names::lemma_lex_strict(a.0, a.0);
    if names::lex_less(a.0, b.0) && names::lex_less(b.0, c.0) {
        names::lemma_lex_transitive(a.0, b.0, c.0);
    }
}

fn key_before(a: &Key, b: &Key) -> (r: bool)
    ensures
        r == key_less(a@, b@),
{
    if is_before(a.layer.as_str(), b.layer.as_str()) {
        return true;
    }
    same(a.layer.as_str(), b.layer.as_str()) && (a.z < b.z || (a.z == b.z && (a.x < b.x || (a.x
        == b.x && a.y < b.y))))
}

fn insert_key(v: &mut Vec<Key>, key: Key)
    requires
        in_key_order(queue::keys(old(v)@)),
    ensures
        in_key_order(queue::keys(final(v)@)),
        forall|k: (Seq<char>, u32, i64, i64)| #[trigger]
            queue::keys(final(v)@).contains(k) == (queue::keys(old(v)@).contains(k) || k == key@),
{
    let ghost before = queue::keys(v@);
    let ghost k0 = key@;
    let mut i: usize = 0;
    while i < v.len() && key_before(&v[i], &key)
        invariant
            i <= v@.len(),
            before == queue::keys(v@),
            k0 == key@,
            forall|j: int| 0 <= j < i ==> key_less(#[trigger] before[j], k0),
        decreases v.len() - i,
    {
        i += 1;
    }
    if i < v.len() && !key_before(&key, &v[i]) {
        proof {
            lemma_key_order(before[i as int], k0, k0);
            assert(before[i as int] == k0);
        }
        return;
    }
    v.insert(i, key);
    proof {
        let after = queue::keys(v@);
        assert(after =~= before.insert(i as int, k0));
        assert forall|a: int, b: int| 0 <= a < b < after.len() implies key_less(
            #[trigger] after[a],
            #[trigger] after[b],
        ) by {
            if a == i {
                assert(after[b] == before[b - 1]);
                if b - 1 > i {
                    lemma_key_order(k0, before[i as int], before[b - 1]);
                }
            } else if b == i {
                assert(after[a] == before[a]);
            } else {
                let a1 = if a < i { a } else { a - 1 };
                let b1 = if b < i { b } else { b - 1 };
                assert(after[a] == before[a1] && after[b] == before[b1]);
            }
        }
        assert forall|k: (Seq<char>, u32, i64, i64)| #[trigger]
            after.contains(k) == (before.contains(k) || k == k0) by {
            if after.contains(k) && k != k0 {
                let a = choose|a: int| 0 <= a < after.len() && after[a] == k;
                let a1 = if a < i { a } else { a - 1 };
                assert(before[a1] == k);
            }
            if before.contains(k) {
                let a = choose|a: int| 0 <= a < before.len() && before[a] == k;
                let a1 = if a < i { a } else { a + 1 };
                assert(after[a1] == k);
            }
            assert(after[i as int] == k0);
        }
    }
}

/// Whether a tile is among those that are not kept yet.
pub open spec fn is_missing(
    wanted: Seq<(Seq<char>, u32, i64, i64)>,
    kept: Seq<bool>,
    k: (Seq<char>, u32, i64, i64),
) -> bool {
    exists|i: int| 0 <= i < wanted.len() && #[trigger] wanted[i] == k && !kept[i]
}

/// The tiles to fetch: those that are wanted and not kept, in order, each once.
pub fn todo(wanted: &Vec<Key>, kept: &Vec<bool>) -> (v: Vec<Key>)
    requires
        kept@.len() == wanted@.len(),
    ensures
        in_key_order(queue::keys(v@)),
        forall|k: (Seq<char>, u32, i64, i64)| #[trigger]
            queue::keys(v@).contains(k) == is_missing(queue::keys(wanted@), kept@, k),
{
    let mut v: Vec<Key> = Vec::new();
    let ghost all = queue::keys(wanted@);
    let mut i: usize = 0;
    proof {
        assert(queue::keys(v@) =~= Seq::empty());
    }
    while i < wanted.len()
        invariant
            i <= wanted@.len(),
            kept@.len() == wanted@.len(),
            all == queue::keys(wanted@),
            in_key_order(queue::keys(v@)),
            forall|k: (Seq<char>, u32, i64, i64)| #[trigger]
                queue::keys(v@).contains(k) == (exists|j: int|
                    0 <= j < i && #[trigger] all[j] == k && !kept@[j]),
        decreases wanted.len() - i,
    {
        let ghost before = queue::keys(v@);
        if !kept[i] {
            insert_key(&mut v, wanted[i].copied());
        }
        proof {
            assert forall|k: (Seq<char>, u32, i64, i64)| #[trigger]
                queue::keys(v@).contains(k) == (exists|j: int|
                    0 <= j < i + 1 && #[trigger] all[j] == k && !kept@[j]) by {
                if queue::keys(v@).contains(k) {
                    if before.contains(k) {
                        let j = choose|j: int| 0 <= j < i && #[trigger] all[j] == k && !kept@[j];
                        assert(all[j] == k);
                    } else {
                        assert(all[i as int] == k);
                    }
                }
                if exists|j: int| 0 <= j < i + 1 && #[trigger] all[j] == k && !kept@[j] {
                    let j = choose|j: int| 0 <= j < i + 1 && #[trigger] all[j] == k && !kept@[j];
                    if j < i {
                        assert(before.contains(k));
                    } else {
                        assert(k == all[i as int]);
                    }
                }
            }
        }
        i += 1;
    }
    v
}

/// Above this many tiles in one run, the run has to be asked for twice.
pub const MAX_TILES: usize = 4000;

/// Whether a run may start: it is small enough, or was asked for in so many
/// words.
pub fn may_run(n: usize, yes: bool) -> (r: bool)
    ensures
        r == (n <= MAX_TILES || yes),
{
    n <= MAX_TILES || yes
}

/// Whether a picture is so small that it holds nothing: a transparent square.
pub fn is_blank(bytes: usize) -> (r: bool)
    ensures
        r == (bytes <= 400),
{
    bytes <= 400
}

/// Whether the run reports behind the tile at an index: every fifty, and at the
/// end.
pub fn reports(i: usize, n: usize) -> (r: bool)
    requires
        i < n,
    ensures
        r == (i % 50 == 49 || i + 1 == n),
{
    i % 50 == 49 || i + 1 == n
}

/// Which directory is the workspace: the one that was named; or the one the
/// program runs in, where it holds recordings; or the nearest of those above
/// the program that does; or else the one the program runs in.
pub open spec fn chosen_root(
    named: Option<Seq<char>>,
    cwd: Seq<char>,
    above: Seq<Seq<char>>,
    held: Seq<Seq<char>>,
) -> Seq<char>
    decreases above.len(),
{
    if named is Some {
        named->0
    } else if held.contains(cwd) || above.len() == 0 {
        cwd
    } else if held.contains(above[0]) {
        above[0]
    } else {
        chosen_root(named, cwd, above.skip(1), held)
    }
}

/// Choose the workspace. `held` lists the directories that hold recordings.
pub fn workspace_root(
    named: Option<&str>,
    cwd: &str,
    above: &Vec<String>,
    held: &Vec<String>,
) -> (r: String)
    ensures
        r@ == chosen_root(
            match named {
                Some(s) => Some(s@),
                None => None,
            },
            cwd@,
            names::views(above@),
            names::views(held@),
        ),
{
    if let Some(s) = named {
        return copy(s);
    }
    if among(held, cwd) {
        return copy(cwd);
    }
    let ghost all = names::views(above@);
    let mut i: usize = 0;
    proof {
        assert(all.skip(0) =~= all);
    }
    while i < above.len()
        invariant
            i <= above@.len(),
            all == names::views(above@),
            named is None,
            !names::views(held@).contains(cwd@),
            chosen_root(None, cwd@, all, names::views(held@)) == chosen_root(
                None,
                cwd@,
                all.skip(i as int),
                names::views(held@),
            ),
        decreases above.len() - i,
    {
        proof {
            assert(all.skip(i as int)[0] == above@[i as int]@);
            assert(all.skip(i as int).skip(1) =~= all.skip(i + 1));
        }
        if among(held, above[i].as_str()) {
            return copy(above[i].as_str());
        }
        i += 1;
    }
    copy(cwd)
}

/// A word that is no setting is an argument; a setting takes the word behind it,
/// unless it is a switch; all keep their order.
pub proof fn law_words_are_sorted_out(
    w: Seq<char>,
    k: Seq<char>,
    v: Seq<char>,
    rest: Seq<Seq<char>>,
)
    requires
        !(w.len() >= 2 && w[0] == '-' && w[1] == '-'),
    ensures
        sorted_out(seq![w] + rest) == (seq![w] + sorted_out(rest).0, sorted_out(rest).1),
        k == "force"@ || k == "open"@ || k == "yes"@ ==> sorted_out(seq![seq!['-', '-'] + k] + rest)
            == (sorted_out(rest).0, seq![(k, "1"@)] + sorted_out(rest).1),
        k != "force"@ && k != "open"@ && k != "yes"@ ==> sorted_out(
            seq![seq!['-', '-'] + k, v] + rest,
        ) == (sorted_out(rest).0, seq![(k, v)] + sorted_out(rest).1),
        sorted_out(Seq::empty()) == (
            Seq::<Seq<char>>::empty(),
            Seq::<(Seq<char>, Seq<char>)>::empty(),
        ),
{
    let f = seq!['-', '-'] + k;
    assert(f.skip(2) =~= k);
    assert(f[0] == '-' && f[1] == '-');
    let a = seq![w] + rest;
    assert(a.skip(1) =~= rest && a[0] == w);
    let b = seq![f] + rest;
    assert(b.skip(1) =~= rest && b[0] == f);
    let c = seq![f, v] + rest;
    assert(c.skip(2) =~= rest && c[0] == f && c[1] == v);
}

/// A range of zooms that is written down is read again, where it goes up and no
/// deeper than twenty; a single zoom is a range of one.
pub proof fn law_written_zooms_are_read(a: nat, b: nat)
    requires
        a <= u32::MAX,
        b <= u32::MAX,
    ensures
        zooms(text::dec(a) + seq!['-'] + text::dec(b)) == (if a <= b && b <= 20 {
            Ok::<(nat, nat), ZoomError>((a, b))
        } else {
            Err(ZoomError::BadRange)
        }),
        a <= 20 ==> zooms(text::dec(a)) == Ok::<(nat, nat), ZoomError>((a, a)),
{
    text::law_written_number_is_read(a, 0);
    text::law_written_number_is_read(b, 0);
    text::lemma_dec_reads(a);
    let d = text::dec(a);
    let s = d + seq!['-'] + text::dec(b);
    text::lemma_index_from(s, '-', 0);
    text::lemma_index_from(d, '-', 0);
    let i = text::index_from(s, '-', 0);
    let j = text::index_from(d, '-', 0);
    assert(s[d.len() as int] == '-');
    if i < d.len() {
        assert(s[i] == d[i]);
        assert(text::is_digit(d[i]));
    }
    if j < d.len() {
        assert(text::is_digit(d[j]));
    }
    assert(s.take(i) =~= d);
    assert(s.skip(i + 1) =~= text::dec(b));
}

/// Tiles are listed row by row, each row from its first column on.
pub proof fn law_tiles_stand_in_rows(x0: int, x1: int, y0: int, y1: int, x: int, y: int)
    requires
        x0 <= x <= x1,
        y0 <= y <= y1,
        i64::MIN <= x0,
        x1 <= i64::MAX,
        i64::MIN <= y0,
        y1 <= i64::MAX,
    ensures
        tile_rows(x0, x1, y0, y1).len() == (x1 - x0 + 1) * (y1 - y0 + 1),
        0 <= (y - y0) * (x1 - x0 + 1) + (x - x0) < tile_rows(x0, x1, y0, y1).len(),
        tile_rows(x0, x1, y0, y1)[(y - y0) * (x1 - x0 + 1) + (x - x0)] == (x as i64, y as i64),
    decreases y1 - y0,
{
    let w = x1 - x0 + 1;
    let front = tile_rows(x0, x1, y0, y1 - 1);
    let all = tile_rows(x0, x1, y0, y1);
    assert(w * (y1 - y0 + 1) == w * (y1 - y0) + w) by (nonlinear_arith);
    assert(w * (y1 - y0) == (y1 - y0) * w) by (nonlinear_arith);
    if y0 <= y1 - 1 {
        law_tiles_stand_in_rows(x0, x1, y0, y1 - 1, x, if y < y1 {
            y
        } else {
            y0
        });
        assert(front.len() == w * (y1 - y0));
    } else {
        assert(front =~= Seq::empty());
        assert(y1 == y0);
        assert(w * 0 == 0);
    }
    let at = (y - y0) * w + (x - x0);
    assert((y - y0) * w >= 0) by (nonlinear_arith)
        requires
            y >= y0,
            w > 0,
    ;
    if y < y1 {
        assert(all[at] == front[at]);
    } else {
        assert(at == front.len() + (x - x0));
        assert(all[at] == tile_row(x0, x1, y1)[x - x0]);
    }
}

/// Of two tiles to fetch one is before the other, or they are the same.
pub proof fn law_keys_are_ordered(
    a: (Seq<char>, u32, i64, i64),
    b: (Seq<char>, u32, i64, i64),
)
    ensures
        key_less(a, b) || key_less(b, a) || a == b,
        !(key_less(a, b) && key_less(b, a)),
        a.0 == b.0 && a.1 < b.1 ==> key_less(a, b),
{
    names::law_one_of_two_is_before(a.0, b.0);
}

/// The root is the one that was named; failing that the nearest folder that has a
/// workspace, from here up; failing that here.
pub proof fn law_root(cwd: Seq<char>, above: Seq<Seq<char>>, held: Seq<Seq<char>>, named: Seq<char>)
    ensures
        chosen_root(Some(named), cwd, above, held) == named,
        held.contains(cwd) ==> chosen_root(None, cwd, above, held) == cwd,
        !held.contains(cwd) ==> (chosen_root(None, cwd, above, held) == cwd && (forall|i: int|
            0 <= i < above.len() ==> !held.contains(#[trigger] above[i]))) || exists|k: int|
            0 <= k < above.len() && chosen_root(None, cwd, above, held) == #[trigger] above[k]
                && held.contains(above[k]) && forall|i: int|
                0 <= i < k ==> !held.contains(#[trigger] above[i]),
    decreases above.len(),
{
    if !held.contains(cwd) && above.len() > 0 {
        if held.contains(above[0]) {
            assert(chosen_root(None, cwd, above, held) == above[0]);
        } else {
            let rest = above.skip(1);
            law_root(cwd, rest, held, named);
            let r = chosen_root(None, cwd, rest, held);
            assert(chosen_root(None, cwd, above, held) == r);
            if r == cwd && (forall|i: int|
                0 <= i < rest.len() ==> !held.contains(#[trigger] rest[i])) {
                assert forall|i: int| 0 <= i < above.len() implies !held.contains(
                    #[trigger] above[i],
                ) by {
                    if i > 0 {
                        assert(rest[i - 1] == above[i]);
                    }
                }
            } else {
                let k = choose|k: int|
                    0 <= k < rest.len() && r == #[trigger] rest[k] && held.contains(rest[k])
                        && forall|i: int| 0 <= i < k ==> !held.contains(#[trigger] rest[i]);
                assert(above[k + 1] == rest[k]);
                assert forall|i: int| 0 <= i < k + 1 implies !held.contains(#[trigger] above[i]) by {
                    if i > 0 {
                        assert(rest[i - 1] == above[i]);
                    }
                }
            }
        }
    }
}

/// The tiles of a box are those of it that the map has.
pub proof fn law_box_is_cut_to_the_map(a: int, b: int, x: int)
    ensures
        x >= at_least(a, b) <==> x >= a && x >= b,
        x <= at_most(a, b) <==> x <= a && x <= b,
{
}

} // verus!
