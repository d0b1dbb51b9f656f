//! What is kept so that it need not be fetched or drawn again: chart tiles on
//! disk, and the blocks of the waterfall in memory.

use vstd::prelude::*;

use crate::bytes::same_bytes;
use crate::names;
use crate::names::join;
use crate::text;
use crate::text::{copy, push_dec, push_padded_signed, push_str, same};

verus! {

/// A transparent picture of one dot: what is served for a tile that has
/// nothing in it, or is not here yet.
pub const BLANK_PNG: [u8; 67] = [
    0x89, 0x50, 0x4e, 0x47, 0x0d, 0x0a, 0x1a, 0x0a, 0x00, 0x00, 0x00, 0x0d, 0x49, 0x48, 0x44, 0x52,
    0x00, 0x00, 0x00, 0x01, 0x00, 0x00, 0x00, 0x01, 0x08, 0x06, 0x00, 0x00, 0x00, 0x1f, 0x15, 0xc4,
    0x89, 0x00, 0x00, 0x00, 0x0a, 0x49, 0x44, 0x41, 0x54, 0x78, 0x9c, 0x63, 0x00, 0x01, 0x00, 0x00,
    0x05, 0x00, 0x01, 0x0d, 0x0a, 0x2d, 0xb4, 0x00, 0x00, 0x00, 0x00, 0x49, 0x45, 0x4e, 0x44, 0xae,
    0x42, 0x60, 0x82,
];

/// How long it is believed, in seconds, that a chart layer has no tile.
pub const MISS_TTL_S: u64 = 86_400;

/// The chart layers that can be asked for.
pub open spec fn tile_layers() -> Seq<Seq<char>> {
    seq!["osm"@, "osmde"@, "topo"@, "seamark"@, "contour"@]
}

/// The names of the chart layers, in the order in which they are offered.
pub fn tile_sources() -> (v: Vec<String>)
    ensures
        names::views(v@) == tile_layers(),
{
    let mut v: Vec<String> = Vec::new();
    v.push(copy("osm"));
    v.push(copy("osmde"));
    v.push(copy("topo"));
    v.push(copy("seamark"));
    v.push(copy("contour"));
    proof {
        assert(names::views(v@) =~= tile_layers());
    }
    v
}

/// Where a chart layer's tiles are served.
pub open spec fn served_at(layer: Seq<char>) -> Option<Seq<char>> {
    if layer == "osm"@ {
        Some("https://tile.openstreetmap.org/"@)
    } else if layer == "osmde"@ {
        Some("https://tile.openstreetmap.de/"@)
    } else if layer == "topo"@ {
        Some("https://a.tile.opentopomap.org/"@)
    } else if layer == "seamark"@ {
        Some("https://tiles.openseamap.org/seamark/"@)
    } else if layer == "contour"@ {
        Some("https://tiles.openseamap.org/contour/"@)
    } else {
        None
    }
}

/// Where a chart layer's tiles are served.
pub fn source(layer: &str) -> (r: Option<&'static str>)
    ensures
        match served_at(layer@) {
            Some(u) => r matches Some(s) && s@ == u,
            None => r is None,
        },
{
    if same(layer, "osm") {
        Some("https://tile.openstreetmap.org/")
    } else if same(layer, "osmde") {
        Some("https://tile.openstreetmap.de/")
    } else if same(layer, "topo") {
        Some("https://a.tile.opentopomap.org/")
    } else if same(layer, "seamark") {
        Some("https://tiles.openseamap.org/seamark/")
    } else if same(layer, "contour") {
        Some("https://tiles.openseamap.org/contour/")
    } else {
        None
    }
}

/// Each layer that is offered is served somewhere.
pub proof fn law_every_layer_is_served(i: int)
    requires
        0 <= i < tile_layers().len(),
    ensures
        served_at(tile_layers()[i]) is Some,
{
}

/// A number with its sign, as it stands in an address.
pub open spec fn plain(n: i64) -> Seq<char> {
    text::padded_signed(n as int, 0)
}

/// The address of a tile.
pub open spec fn address(layer: Seq<char>, z: u32, x: i64, y: i64) -> Option<Seq<char>> {
    match served_at(layer) {
        Some(u) => Some(u + text::dec(z as nat) + "/"@ + plain(x) + "/"@ + plain(y) + ".png"@),
        None => None,
    }
}

/// The chart tiles that are kept on disk, below a directory.
pub struct TileCache {
    pub root: String,
}

impl TileCache {
    /// Where a tile is kept.
    pub open spec fn place(root: Seq<char>, layer: Seq<char>, z: u32, x: i64, y: i64) -> Seq<char> {
        names::joined(
            names::joined(
                names::joined(names::joined(root, layer), text::dec(z as nat)),
                plain(x),
            ),
            plain(y) + ".png"@,
        )
    }

    /// Keep tiles below a directory.
    pub fn new(root: String) -> (c: TileCache)
        ensures
            c.root == root,
    {
        TileCache { root }
    }

    /// Where a tile is kept: a directory for the layer, the zoom level and the
    /// column.
    pub fn path(&self, layer: &str, z: u32, x: i64, y: i64) -> (p: String)
        ensures
            p@ == TileCache::place(self.root@, layer@, z, x, y),
    {
        let mut zoom = String::new();
        push_dec(&mut zoom, z as u64);
        let mut column = String::new();
        push_padded_signed(&mut column, x, 0);
        let mut file = String::new();
        push_padded_signed(&mut file, y, 0);
        push_str(&mut file, ".png");
        proof {
            assert(zoom@ =~= text::dec(z as nat));
            assert(column@ =~= plain(x));
            assert(file@ =~= plain(y) + ".png"@);
        }
        let d = join(self.root.as_str(), layer);
        let d = join(d.as_str(), zoom.as_str());
        let d = join(d.as_str(), column.as_str());
        join(d.as_str(), file.as_str())
    }

    /// What is kept of a tile, given what was read where it is kept and how
    /// many seconds ago that was written. That a tile has nothing in it is not
    /// believed for ever.
    pub fn get(&self, layer: &str, read: Option<Vec<u8>>, age_s: u64) -> (r: Option<Vec<u8>>)
        ensures
            r is Some == (served_at(layer@) is Some && read is Some && read->0@.len() > 0 && !(
            read->0@ == BLANK_PNG@ && age_s > MISS_TTL_S)),
            r is Some ==> r == read,
    {
        match source(layer) {
            None => None,
            Some(_) => match read {
                None => None,
                Some(b) => if b.len() == 0 {
                    None
                } else if same_bytes(&b, BLANK_PNG.as_slice()) && age_s > MISS_TTL_S {
                    None
                } else {
                    Some(b)
                },
            },
        }
    }

    /// The address a tile is fetched from.
    pub fn url(layer: &str, z: u32, x: i64, y: i64) -> (r: Option<String>)
        ensures
            match address(layer@, z, x, y) {
                Some(u) => r matches Some(s) && s@ == u,
                None => r is None,
            },
    {
        match source(layer) {
            None => None,
            Some(u) => {
                let mut s = copy(u);
                push_dec(&mut s, z as u64);
                push_str(&mut s, "/");
                push_padded_signed(&mut s, x, 0);
                push_str(&mut s, "/");
                push_padded_signed(&mut s, y, 0);
                push_str(&mut s, ".png");
                Some(s)
            },
        }
    }
}

/// How many blocks are kept.
pub const BLOCK_CACHE: usize = 24;

/// The blocks of the waterfall that were drawn last, each under the digest of
/// the settings it was drawn with.
pub struct BlockCache<T> {
    /// The one that has gone unused for longest comes first.
    pub blocks: Vec<(String, T)>,
}

/// Where the block of a key is, or how many there are.
pub open spec fn place_of<T>(s: Seq<(Seq<char>, T)>, key: Seq<char>) -> int
    decreases s.len(),
{
    if s.len() == 0 {
        0
    } else if s[0].0 == key {
        0
    } else {
        1 + place_of(s.skip(1), key)
    }
}

proof fn lemma_place<T>(s: Seq<(Seq<char>, T)>, key: Seq<char>)
    ensures
        0 <= place_of(s, key) <= s.len(),
        place_of(s, key) < s.len() ==> s[place_of(s, key)].0 == key,
        forall|i: int| 0 <= i < place_of(s, key) ==> (#[trigger] s[i]).0 != key,
    decreases s.len(),
{
    if s.len() > 0 && s[0].0 != key {
        lemma_place(s.skip(1), key);
        assert forall|i: int| 0 <= i < place_of(s, key) implies (#[trigger] s[i]).0 != key by {
            if i > 0 {
                assert(s[i] == s.skip(1)[i - 1]);
            }
        }
    }
}

proof fn lemma_place_is<T>(s: Seq<(Seq<char>, T)>, key: Seq<char>, n: int)
    requires
        0 <= n <= s.len(),
        n < s.len() ==> s[n].0 == key,
        forall|i: int| 0 <= i < n ==> (#[trigger] s[i]).0 != key,
    ensures
        place_of(s, key) == n,
{
    lemma_place(s, key);
    let p = place_of(s, key);
    if p < n {
        assert(s[p].0 == key);
    }
    if n < p {
        assert(s[n].0 == key);
    }
}

/// A sequence without the block of a key.
pub open spec fn without<T>(s: Seq<(Seq<char>, T)>, key: Seq<char>) -> Seq<(Seq<char>, T)> {
    let i = place_of(s, key);
    if i < s.len() {
        s.remove(i)
    } else {
        s
    }
}

/// What is kept under a key.
pub open spec fn kept<T>(s: Seq<(Seq<char>, T)>, key: Seq<char>) -> Option<T> {
    let i = place_of(s, key);
    if i < s.len() {
        Some(s[i].1)
    } else {
        None
    }
}

/// What is kept once a block has been added: the block last, and of the others
/// those asked for last, as many as there is room for.
pub open spec fn added<T>(s: Seq<(Seq<char>, T)>, key: Seq<char>, v: T) -> Seq<(Seq<char>, T)> {
    let all = without(s, key).push((key, v));
    if all.len() > BLOCK_CACHE {
        all.skip(all.len() - BLOCK_CACHE)
    } else {
        all
    }
}

impl<T> View for BlockCache<T> {
    type V = Seq<(Seq<char>, T)>;

    open spec fn view(&self) -> Seq<(Seq<char>, T)> {
        self.blocks@.map_values(|b: (String, T)| (b.0@, b.1))
    }
}

impl<T> BlockCache<T> {
    /// No key twice, and no more than there is room for.
    pub open spec fn valid(self) -> bool {
        &&& self@.len() <= BLOCK_CACHE
        &&& forall|i: int, j: int|
            0 <= i < j < self@.len() ==> (#[trigger] self@[i]).0 != (#[trigger] self@[j]).0
    }

    /// Nothing is kept.
    pub fn new() -> (c: BlockCache<T>)
        ensures
            c.valid(),
            c@ == Seq::<(Seq<char>, T)>::empty(),
    {
        let c = BlockCache { blocks: Vec::new() };
        proof {
            assert(c@ =~= Seq::empty());
        }
        c
    }

    fn find(&self, key: &str) -> (r: usize)
        ensures
            r == place_of(self@, key@),
            r <= self@.len(),
    {
        let mut i: usize = 0;
        while i < self.blocks.len()
            invariant
                i <= self.blocks@.len(),
                forall|j: int| 0 <= j < i ==> (#[trigger] self@[j]).0 != key@,
            decreases self.blocks.len() - i,
        {
            if same(self.blocks[i].0.as_str(), key) {
                proof {
                    assert(self@[i as int].0 == key@);
                    lemma_place_is(self@, key@, i as int);
                }
                return i;
            }
            proof {
                assert(self@[i as int].0 != key@);
            }
            i += 1;
        }
        proof {
            lemma_place_is(self@, key@, i as int);
        }
        i
    }

    /// The block of a key, which is then the one asked for last.
    pub fn get(&mut self, key: &str) -> (r: Option<&T>)
        requires
            old(self).valid(),
        ensures
            final(self).valid(),
            match kept(old(self)@, key@) {
                Some(v) => r matches Some(x) && *x == v && final(self)@ == without(
                    old(self)@,
                    key@,
                ).push((key@, v)),
                None => r is None && final(self)@ == old(self)@,
            },
    {
        let i = self.find(key);
        let ghost before = self@;
        if i >= self.blocks.len() {
            return None;
        }
        proof {
            lemma_place(before, key@);
        }
        let b = self.blocks.remove(i);
        let ghost pair = (b.0@, b.1);
        self.blocks.push(b);
        proof {
            assert(pair == before[i as int]);
            assert(self@ =~= before.remove(i as int).push(pair));
            lemma_moved(before, i as int, pair.1);
        }
        Some(&self.blocks[self.blocks.len() - 1].1)
    }

    /// The block of a key, which is not counted as being asked for.
    pub fn peek(&self, key: &str) -> (r: Option<&T>)
        ensures
            match kept(self@, key@) {
                Some(v) => r matches Some(x) && *x == v,
                None => r is None,
            },
    {
        let i = self.find(key);
        if i < self.blocks.len() {
            Some(&self.blocks[i].1)
        } else {
            None
        }
    }

    /// Keep a block, and give up the one unused for longest
    /// where there is no room for it.
    pub fn insert(&mut self, key: String, v: T)
        requires
            old(self).valid(),
        ensures
            final(self).valid(),
            final(self)@ == added(old(self)@, key@, v),
    {
        let i = self.find(key.as_str());
        let ghost before = self@;
        let ghost k = key@;
        proof {
            lemma_place(before, k);
        }
        if i < self.blocks.len() {
            self.blocks.remove(i);
            proof {
                assert(self@ =~= before.remove(i as int));
            }
        }
        self.blocks.push((key, v));
        proof {
            assert(self@ =~= without(before, k).push((k, v)));
            if i < before.len() {
                lemma_moved(before, i as int, v);
            }
        }
        let ghost all = self@;
        if self.blocks.len() > BLOCK_CACHE {
            self.blocks.remove(0);
            proof {
                assert(self@ =~= all.skip(1));
                assert forall|a: int, b: int| 0 <= a < b < self@.len() implies (
                #[trigger] self@[a]).0 != (#[trigger] self@[b]).0 by {
                    assert(self@[a] == all[a + 1] && self@[b] == all[b + 1]);
                }
            }
        }
    }

    /// How many blocks are kept.
    pub fn len(&self) -> (n: usize)
        ensures
            n == self@.len(),
    {
        self.blocks.len()
    }

    /// Whether none is kept.
    pub fn is_empty(&self) -> (r: bool)
        ensures
            r == (self@.len() == 0),
    {
        self.blocks.len() == 0
    }
}

proof fn lemma_moved<T>(s: Seq<(Seq<char>, T)>, i: int, v: T)
    requires
        0 <= i < s.len(),
        forall|a: int, b: int|
            0 <= a < b < s.len() ==> (#[trigger] s[a]).0 != (#[trigger] s[b]).0,
    ensures
        ({
            let t = s.remove(i).push((s[i].0, v));
            forall|a: int, b: int|
                0 <= a < b < t.len() ==> (#[trigger] t[a]).0 != (#[trigger] t[b]).0
        }),
{
    let t = s.remove(i).push((s[i].0, v));
    assert forall|a: int, b: int| 0 <= a < b < t.len() implies (#[trigger] t[a]).0 != (
    #[trigger] t[b]).0 by {
        let a1 = if a < i { a } else { a + 1 };
        assert(t[a] == s[a1]);
        if b == t.len() - 1 {
            assert(t[b].0 == s[i].0);
        } else {
            let b1 = if b < i { b } else { b + 1 };
            assert(t[b] == s[b1]);
        }
    }
}

/// A block that was just added is found.
pub proof fn law_added_is_found<T>(c: BlockCache<T>, key: Seq<char>, v: T)
    requires
        c.valid(),
    ensures
        kept(added(c@, key, v), key) == Some(v),
{
    let s = c@;
    let all = added(s, key, v);
    lemma_place(s, key);
    let w = without(s, key);
    assert forall|i: int| 0 <= i < w.len() implies (#[trigger] w[i]).0 != key by {
        let p = place_of(s, key);
        if p < s.len() {
            let j = if i < p { i } else { i + 1 };
            assert(w[i] == s[j]);
            assert(s[p].0 == key);
        } else {
            assert(w[i] == s[i]);
        }
    }
    let n = all.len() - 1;
    let off = w.len() - n;
    assert forall|i: int| 0 <= i < n implies (#[trigger] all[i]).0 != key by {
        assert(all[i] == w[i + off]);
    }
    assert(all[n] == (key, v));
    lemma_place_is(all, key, n);
}

/// Asking for a block changes nothing of what is kept under any key.
pub proof fn law_asking_keeps<T>(c: BlockCache<T>, key: Seq<char>, other: Seq<char>)
    requires
        c.valid(),
        kept(c@, key) is Some,
    ensures
        kept(without(c@, key).push((key, kept(c@, key)->0)), other) == kept(c@, other),
{
    let s = c@;
    let i = place_of(s, key);
    lemma_place(s, key);
    lemma_place(s, other);
    let t = s.remove(i).push((key, s[i].1));
    let p = place_of(s, other);
    if other == key {
        assert forall|a: int| 0 <= a < t.len() - 1 implies (#[trigger] t[a]).0 != key by {
            let a1 = if a < i { a } else { a + 1 };
            assert(t[a] == s[a1]);
        }
        lemma_place_is(t, key, t.len() - 1);
    } else if p < s.len() {
        let q = if p < i { p } else { p - 1 };
        assert(t[q] == s[p]);
        assert forall|a: int| 0 <= a < q implies (#[trigger] t[a]).0 != other by {
            let a1 = if a < i { a } else { a + 1 };
            assert(t[a] == s[a1]);
            if a1 >= p {
                assert(s[p].0 == s[a1].0 ==> a1 == p);
            }
        }
        lemma_place_is(t, other, q);
    } else {
        assert forall|a: int| 0 <= a < t.len() implies (#[trigger] t[a]).0 != other by {
            if a < t.len() - 1 {
                let a1 = if a < i { a } else { a + 1 };
                assert(t[a] == s[a1]);
            }
        }
        lemma_place_is(t, other, t.len() as int);
    }
}

/// A tile is asked for by its zoom, its column and its row, in this order.
pub proof fn law_address_names_the_tile(layer: Seq<char>, z: u32, x: i64, y: i64)
    requires
        0 <= x,
        0 <= y,
    ensures
        address(layer, z, x, y) is Some <==> served_at(layer) is Some,
        address(layer, z, x, y) matches Some(u) ==> (text::dec(z as nat) + seq!['/'] + text::dec(
            x as nat,
        ) + seq!['/'] + text::dec(y as nat) + seq!['.', 'p', 'n', 'g']).is_suffix_of(u),
{
    reveal_strlit("/");
    reveal_strlit(".png");
    if let Some(u) = address(layer, z, x, y) {
        let end = text::dec(z as nat) + seq!['/'] + text::dec(x as nat) + seq!['/'] + text::dec(
            y as nat,
        ) + seq!['.', 'p', 'n', 'g'];
        assert("/"@ =~= seq!['/']);
        assert(".png"@ =~= seq!['.', 'p', 'n', 'g']);
        assert(plain(x) == text::dec(x as nat));
        assert(plain(y) == text::dec(y as nat));
        let base = served_at(layer)->0;
        assert(u =~= base + end);
        assert(u.subrange(u.len() - end.len(), u.len() as int) =~= end);
    }
}

proof fn lemma_place_of<T>(s: Seq<(Seq<char>, T)>, key: Seq<char>)
    ensures
        0 <= place_of(s, key) <= s.len(),
        place_of(s, key) < s.len() ==> s[place_of(s, key)].0 == key,
        forall|i: int| 0 <= i < place_of(s, key) ==> (#[trigger] s[i]).0 != key,
    decreases s.len(),
{
    if s.len() > 0 && s[0].0 != key {
        lemma_place_of(s.skip(1), key);
        let p = place_of(s.skip(1), key);
        assert forall|i: int| 0 <= i < p + 1 implies (#[trigger] s[i]).0 != key by {
            if i > 0 {
                assert(s.skip(1)[i - 1] == s[i]);
            }
        }
    }
}

/// A new block pushes out the one that was asked for longest ago, where twenty-four
/// are kept already, and no other.
pub proof fn law_oldest_goes<T>(s: Seq<(Seq<char>, T)>, key: Seq<char>, v: T)
    requires
        s.len() <= 24,
        forall|i: int| 0 <= i < s.len() ==> (#[trigger] s[i]).0 != key,
    ensures
        s.len() < 24 ==> added(s, key, v) == s.push((key, v)),
        s.len() == 24 ==> added(s, key, v) == s.skip(1).push((key, v)),
{
    lemma_place_of(s, key);
    let p = place_of(s, key);
    if p < s.len() {
        assert(s[p].0 != key);
    }
    assert(s.push((key, v)).skip(1) =~= s.skip(1).push((key, v)) || s.len() == 0);
}

/// A block that is kept is the one under its name, and a name that no block has is
/// not found.
pub proof fn law_kept_under_its_name<T>(s: Seq<(Seq<char>, T)>, key: Seq<char>)
    ensures
        kept(s, key) matches Some(v) ==> exists|i: int|
            0 <= i < s.len() && #[trigger] s[i] == (key, v),
        kept(s, key) is None <==> forall|i: int| 0 <= i < s.len() ==> (#[trigger] s[i]).0 != key,
{
    lemma_place_of(s, key);
    let p = place_of(s, key);
    if p < s.len() {
        assert(s[p] == (key, s[p].1));
    }
}

} // verus!
