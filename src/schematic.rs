use vstd::prelude::*;

use crate::components::Direction;
use vstd::string::StringSliceAdditionalSpecFns;
use vstd::utf8::encode_utf8;

verus! {

/// One tile type of a schematic: display data and the four directional
/// allow-lists, i.e. the tile types that may stand next to it on each side.
#[derive(Debug)]
pub struct TileSchematic {
    pub name: String,
    pub sheet: String,
    /// Carried for format compatibility; tile selection does not weigh by it.
    pub weight: u8,
    pub north: Vec<u8>,
    pub east: Vec<u8>,
    pub south: Vec<u8>,
    pub west: Vec<u8>,
}

/// Why a schematic was rejected.
#[derive(Clone, Copy, Debug, PartialEq, Eq, Structural)]
pub enum FormatError {
    /// The text is not a well-formed schematic document.
    Malformed,
    /// A tile key is not a decimal number in `0..=255`.
    InvalidKey,
    /// Two tile records have the same identifier.
    DuplicateKey,
    /// The fallback identifier names no tile type.
    MissingFallback,
    /// An allow-list names an identifier that is no tile type.
    UnknownNeighbor,
}

/// A validated ruleset: tile types keyed by identifier, plus the fallback
/// identifier used for cells that could not be resolved.
#[derive(Debug)]
pub struct SchematicAsset {
    pub not_found: u8,
    pub tiles: Vec<(u8, TileSchematic)>,
}

impl TileSchematic {
    /// The allow-list for direction `d`.
    pub open spec fn allow_list(&self, d: Direction) -> Seq<u8> {
        match d {
            Direction::Up => self.north@,
            Direction::Right => self.east@,
            Direction::Down => self.south@,
            Direction::Left => self.west@,
        }
    }

    /// The allow-list for direction `d`.
    pub fn allowed(&self, d: Direction) -> (r: &Vec<u8>)
        ensures
            r@ == self.allow_list(d),
    {
        match d {
            Direction::Up => &self.north,
            Direction::Right => &self.east,
            Direction::Down => &self.south,
            Direction::Left => &self.west,
        }
    }
}

/// Whether `b` is an ASCII decimal digit.
pub open spec fn is_digit(b: u8) -> bool {
    48 <= b <= 57
}

/// The number written by the decimal digits `s`, most significant first.
pub open spec fn decimal_value(s: Seq<u8>) -> int
    decreases s.len(),
{
    if s.len() == 0 {
        0
    } else {
        decimal_value(s.drop_last()) * 10 + (s.last() - 48)
    }
}

/// The number written by `s` if it is one or more decimal digits whose value
/// fits in a byte.
pub open spec fn digits_id(s: Seq<u8>) -> Option<u8> {
    if s.len() > 0 && (forall|i: int| 0 <= i < s.len() ==> is_digit(#[trigger] s[i]))
        && decimal_value(s) <= 255 {
        Some(decimal_value(s) as u8)
    } else {
        None
    }
}

/// The tile identifier written by `s`: decimal digits whose value fits in a
/// byte, after an optional `+` sign, as `u8`'s `FromStr` reads them.
pub open spec fn tile_id_of(s: Seq<u8>) -> Option<u8> {
    if s.len() > 0 && s[0] == 43 {
        digits_id(s.drop_first())
    } else {
        digits_id(s)
    }
}

proof fn lemma_decimal_grows(s: Seq<u8>, k: int)
    requires
        0 <= k <= s.len(),
        forall|i: int| 0 <= i < s.len() ==> is_digit(#[trigger] s[i]),
    ensures
        decimal_value(s.subrange(0, k)) <= decimal_value(s),
        0 <= decimal_value(s.subrange(0, k)),
    decreases s.len(),
{
    if s.len() == 0 {
        assert(s.subrange(0, k) =~= s);
    } else if k == s.len() {
        assert(s.subrange(0, k) =~= s);
        lemma_decimal_grows(s.drop_last(), 0);
        assert(s.drop_last().subrange(0, 0) =~= s.subrange(0, 0));
    } else {
        lemma_decimal_grows(s.drop_last(), k);
        assert(s.drop_last().subrange(0, k) =~= s.subrange(0, k));
        lemma_decimal_grows(s.drop_last(), s.len() - 1);
        assert(s.drop_last().subrange(0, s.len() - 1) =~= s.drop_last());
    }
}

/// Reads the number written by `bytes[start..]`.
fn parse_digits(bytes: &[u8], start: usize) -> (r: Option<u8>)
    requires
        start <= bytes@.len(),
    ensures
        r == digits_id(bytes@.subrange(start as int, bytes@.len() as int)),
{
    let n = bytes.len();
    let ghost d = bytes@.subrange(start as int, n as int);
    if n == start {
        return None;
    }
    let mut acc: u32 = 0;
    let mut i: usize = start;
    while i < n
        invariant
            n == bytes@.len(),
            d == bytes@.subrange(start as int, n as int),
            start <= i <= n,
            n > start,
            acc as int == decimal_value(d.subrange(0, i - start)),
            acc <= 255,
            forall|j: int| 0 <= j < i - start ==> is_digit(#[trigger] d[j]),
        decreases n - i,
    {
        let b = bytes[i];
        assert(d[i - start] == b);
        assert(d.subrange(0, i - start + 1).drop_last() =~= d.subrange(0, i - start));
        if b < 48 || b > 57 {
            assert(!is_digit(d[i - start]));
            return None;
        }
        acc = acc * 10 + (b - 48) as u32;
        if acc > 255 {
            proof {
                if forall|j: int| 0 <= j < d.len() ==> is_digit(#[trigger] d[j]) {
                    lemma_decimal_grows(d, i - start + 1);
                }
            }
            return None;
        }
        i = i + 1;
    }
    assert(d.subrange(0, n - start) =~= d);
    Some(acc as u8)
}

/// Reads a tile identifier: decimal digits after an optional `+` sign.
pub fn parse_tile_id(key: &str) -> (r: Option<u8>)
    ensures
        r == tile_id_of(key.spec_bytes()),
{
    let bytes = key.as_bytes();
    if bytes.len() > 0 && bytes[0] == 43 {
        assert(bytes@.subrange(1, bytes@.len() as int) =~= bytes@.drop_first());
        parse_digits(bytes, 1)
    } else {
        assert(bytes@.subrange(0, bytes@.len() as int) =~= bytes@);
        parse_digits(bytes, 0)
    }
}

impl SchematicAsset {
    /// Whether some tile type has identifier `a`.
    pub open spec fn has_id(&self, a: u8) -> bool {
        exists|i: int| 0 <= i < self.tiles@.len() && (#[trigger] self.tiles@[i]).0 == a
    }

    /// Whether the rules let tile `b` stand on side `d` of tile `a`.
    pub open spec fn allows(&self, a: u8, d: Direction, b: u8) -> bool {
        exists|i: int|
            0 <= i < self.tiles@.len() && (#[trigger] self.tiles@[i]).0 == a
                && self.tiles@[i].1.allow_list(d).contains(b)
    }

    /// The predicate "may stand on side `d` of tile `a`".
    pub open spec fn allowed_by(&self, a: u8, d: Direction) -> spec_fn(u8) -> bool {
        |b: u8| self.allows(a, d, b)
    }

    /// The tile identifiers, in record order.
    pub open spec fn ids(&self) -> Seq<u8> {
        self.tiles@.map_values(|e: (u8, TileSchematic)| e.0)
    }

    pub open spec fn keys_unique(tiles: Seq<(u8, TileSchematic)>) -> bool {
        forall|i: int, j: int|
            0 <= i < tiles.len() && 0 <= j < tiles.len() && i != j ==> (#[trigger] tiles[i]).0
                != (#[trigger] tiles[j]).0
    }

    pub open spec fn neighbors_known(tiles: Seq<(u8, TileSchematic)>) -> bool {
        forall|i: int, d: Direction, k: int|
            0 <= i < tiles.len() && 0 <= k < tiles[i].1.allow_list(d).len() ==> (exists|j: int|
                0 <= j < tiles.len() && (#[trigger] tiles[j]).0 == #[trigger] tiles[i].1.allow_list(
                    d,
                )[k])
    }

    /// Well-formedness: identifiers are unique, the fallback is one of them,
    /// and every allow-list names only known identifiers.
    pub open spec fn wf(&self) -> bool {
        &&& Self::keys_unique(self.tiles@)
        &&& self.has_id(self.not_found)
        &&& Self::neighbors_known(self.tiles@)
    }

    /// The fallback identifier.
    pub fn fallback_id(&self) -> (r: u8)
        ensures
            r == self.not_found,
    {
        self.not_found
    }

    /// The position of tile type `a` among the records.
    pub fn position(&self, a: u8) -> (r: Option<usize>)
        ensures
            match r {
                Some(i) => i < self.tiles@.len() && self.tiles@[i as int].0 == a,
                None => !self.has_id(a),
            },
    {
        let mut i: usize = 0;
        while i < self.tiles.len()
            invariant
                0 <= i <= self.tiles@.len(),
                forall|j: int| 0 <= j < i ==> (#[trigger] self.tiles@[j]).0 != a,
            decreases self.tiles@.len() - i,
        {
            if self.tiles[i].0 == a {
                return Some(i);
            }
            i = i + 1;
        }
        None
    }

    /// The tile type with identifier `a`, if there is one.
    pub fn lookup(&self, a: u8) -> (r: Option<&TileSchematic>)
        requires
            Self::keys_unique(self.tiles@),
        ensures
            match r {
                Some(t) => exists|i: int|
                    0 <= i < self.tiles@.len() && (#[trigger] self.tiles@[i]).0 == a
                        && self.tiles@[i].1 == *t,
                None => !self.has_id(a),
            },
    {
        match self.position(a) {
            Some(i) => Some(&self.tiles[i].1),
            None => None,
        }
    }

    /// Whether the rules let tile `b` stand on side `d` of tile `a`.
    pub fn permits(&self, a: u8, d: Direction, b: u8) -> (r: bool)
        requires
            Self::keys_unique(self.tiles@),
        ensures
            r == self.allows(a, d, b),
    {
        match self.position(a) {
            None => false,
            Some(i) => {
                let list = self.tiles[i].1.allowed(d);
                let mut k: usize = 0;
                while k < list.len()
                    invariant
                        i < self.tiles@.len(),
                        self.tiles@[i as int].0 == a,
                        list@ == self.tiles@[i as int].1.allow_list(d),
                        0 <= k <= list@.len(),
                        forall|j: int| 0 <= j < k ==> list@[j] != b,
                    decreases list@.len() - k,
                {
                    if list[k] == b {
                        assert(list@[k as int] == b);
                        assert(list@.contains(b));
                        assert(self.tiles@[i as int].1.allow_list(d).contains(b));
                        return true;
                    }
                    k = k + 1;
                }
                assert(!self.tiles@[i as int].1.allow_list(d).contains(b));
                assert forall|j: int|
                    0 <= j < self.tiles@.len() && (#[trigger] self.tiles@[j]).0 == a implies !self.tiles@[j].1.allow_list(
                    d,
                ).contains(b) by {
                    if j != i {
                        assert(self.tiles@[j].0 != self.tiles@[i as int].0);
                    }
                }
                false
            },
        }
    }
}

/// The identifier a record's key names, if it names one.
pub open spec fn record_id(rec: (String, TileSchematic)) -> Option<u8> {
    tile_id_of(encode_utf8(rec.0@))
}

/// Whether every record key names an identifier.
pub open spec fn records_parse(recs: Seq<(String, TileSchematic)>) -> bool {
    forall|i: int| 0 <= i < recs.len() ==> (#[trigger] record_id(recs[i])) is Some
}

/// The records keyed by the identifiers their keys name.
pub open spec fn parsed(recs: Seq<(String, TileSchematic)>) -> Seq<(u8, TileSchematic)> {
    Seq::new(recs.len(), |i: int| (record_id(recs[i])->0, recs[i].1))
}

/// The first problem found with a schematic made of `recs` and fallback
/// `not_found`, checking keys, then uniqueness, then the fallback, then the
/// allow-lists; `None` if there is none.
pub open spec fn load_error(not_found: u8, recs: Seq<(String, TileSchematic)>) -> Option<FormatError> {
    let tiles = parsed(recs);
    if !records_parse(recs) {
        Some(FormatError::InvalidKey)
    } else if !SchematicAsset::keys_unique(tiles) {
        Some(FormatError::DuplicateKey)
    } else if !(exists|i: int| 0 <= i < tiles.len() && (#[trigger] tiles[i]).0 == not_found) {
        Some(FormatError::MissingFallback)
    } else if !SchematicAsset::neighbors_known(tiles) {
        Some(FormatError::UnknownNeighbor)
    } else {
        None
    }
}

/// Whether every identifier of `list` occurs in `ids`.
fn all_listed(ids: &Vec<u8>, list: &Vec<u8>) -> (r: bool)
    ensures
        r == forall|k: int| 0 <= k < list@.len() ==> ids@.contains(#[trigger] list@[k]),
{
    let mut k: usize = 0;
    while k < list.len()
        invariant
            0 <= k <= list@.len(),
            forall|m: int| 0 <= m < k ==> ids@.contains(#[trigger] list@[m]),
        decreases list@.len() - k,
    {
        let x = list[k];
        let mut found = false;
        let mut i: usize = 0;
        while i < ids.len()
            invariant
                0 <= i <= ids@.len(),
                found == exists|m: int| 0 <= m < i && ids@[m] == x,
            decreases ids@.len() - i,
        {
            if ids[i] == x {
                found = true;
            }
            i = i + 1;
        }
        if !found {
            assert(!ids@.contains(list@[k as int]));
            return false;
        }
        k = k + 1;
    }
    true
}

impl SchematicAsset {
    /// Builds a schematic from records keyed by decimal identifier strings,
    /// in record order, rejecting keys that name no identifier, repeated
    /// identifiers, an unknown fallback and allow-lists naming unknown
    /// identifiers.
    pub fn load(not_found: u8, records: Vec<(String, TileSchematic)>) -> (r: Result<SchematicAsset, FormatError>)
        ensures
            r is Ok <==> load_error(not_found, records@) is None,
            r matches Ok(s) ==> s.not_found == not_found && s.tiles@ == parsed(records@) && s.wf(),
            r matches Err(e) ==> load_error(not_found, records@) == Some(e),
    {
        let ghost recs = records@;
        let n = records.len();
        let mut ids: Vec<u8> = Vec::new();
        let mut i: usize = 0;
        while i < n
            invariant
                0 <= i <= n,
                n == recs.len(),
                records@ == recs,
                ids@.len() == i,
                forall|k: int| 0 <= k < i ==> (#[trigger] record_id(recs[k])) == Some(ids@[k]),
            decreases n - i,
        {
            match parse_tile_id(records[i].0.as_str()) {
                None => {
                    assert(record_id(recs[i as int]) is None);
                    return Err(FormatError::InvalidKey);
                },
                Some(id) => {
                    ids.push(id);
                },
            }
            i = i + 1;
        }
        let ghost tiles = parsed(recs);
        assert(records_parse(recs)) by {
            assert forall|k: int| 0 <= k < n implies (#[trigger] record_id(recs[k])) is Some by {}
        }
        assert forall|k: int| 0 <= k < n implies #[trigger] tiles[k].0 == ids@[k] by {
            assert(record_id(recs[k]) == Some(ids@[k]));
        }
        let mut a: usize = 0;
        while a < n
            invariant
                0 <= a <= n,
                n == recs.len(),
                ids@.len() == n,
                tiles == parsed(recs),
                records_parse(recs),
                records@ == recs,
                forall|k: int| 0 <= k < n ==> #[trigger] tiles[k].0 == ids@[k],
                forall|p: int, q: int| 0 <= p < a && 0 <= q < n && p != q ==> ids@[p] != ids@[q],
            decreases n - a,
        {
            let mut b: usize = 0;
            while b < n
                invariant
                    0 <= a < n,
                    0 <= b <= n,
                    n == recs.len(),
                    ids@.len() == n,
                    tiles == parsed(recs),
                    records_parse(recs),
                    records@ == recs,
                    forall|k: int| 0 <= k < n ==> #[trigger] tiles[k].0 == ids@[k],
                    forall|q: int| 0 <= q < b && q != a ==> ids@[a as int] != ids@[q],
                decreases n - b,
            {
                if b != a && ids[a] == ids[b] {
                    assert(tiles[a as int].0 == tiles[b as int].0);
                    assert(!SchematicAsset::keys_unique(tiles));
                    return Err(FormatError::DuplicateKey);
                }
                b = b + 1;
            }
            a = a + 1;
        }
        assert(SchematicAsset::keys_unique(tiles)) by {
            assert forall|p: int, q: int|
                0 <= p < tiles.len() && 0 <= q < tiles.len() && p != q implies (#[trigger] tiles[p]).0
                    != (#[trigger] tiles[q]).0 by {
                assert(ids@[p] != ids@[q]);
            }
        }
        let mut found = false;
        let mut f: usize = 0;
        while f < n
            invariant
                0 <= f <= n,
                n == recs.len(),
                ids@.len() == n,
                tiles == parsed(recs),
                records_parse(recs),
                records@ == recs,
                SchematicAsset::keys_unique(tiles),
                forall|k: int| 0 <= k < n ==> #[trigger] tiles[k].0 == ids@[k],
                found == exists|m: int| 0 <= m < f && ids@[m] == not_found,
            decreases n - f,
        {
            if ids[f] == not_found {
                found = true;
            }
            f = f + 1;
        }
        if !found {
            assert(!(exists|m: int| 0 <= m < tiles.len() && (#[trigger] tiles[m]).0 == not_found));
            return Err(FormatError::MissingFallback);
        }
        assert(exists|m: int| 0 <= m < tiles.len() && (#[trigger] tiles[m]).0 == not_found) by {
            let m = choose|m: int| 0 <= m < n && ids@[m] == not_found;
            assert(tiles[m].0 == not_found);
        }
        let mut t: usize = 0;
        while t < n
            invariant
                0 <= t <= n,
                n == recs.len(),
                records@ == recs,
                ids@.len() == n,
                tiles == parsed(recs),
                records_parse(recs),
                SchematicAsset::keys_unique(tiles),
                exists|m: int| 0 <= m < tiles.len() && (#[trigger] tiles[m]).0 == not_found,
                forall|k: int| 0 <= k < n ==> #[trigger] tiles[k].0 == ids@[k],
                forall|i: int, d: Direction, k: int|
                    0 <= i < t && 0 <= k < tiles[i].1.allow_list(d).len() ==> ids@.contains(
                        #[trigger] tiles[i].1.allow_list(d)[k],
                    ),
            decreases n - t,
        {
            let tile = &records[t].1;
            assert(tiles[t as int].1 == *tile);
            let ok = all_listed(&ids, tile.allowed(Direction::Up)) && all_listed(
                &ids,
                tile.allowed(Direction::Right),
            ) && all_listed(&ids, tile.allowed(Direction::Down)) && all_listed(
                &ids,
                tile.allowed(Direction::Left),
            );
            if !ok {
                proof {
                    let d = if !(forall|k: int| 0 <= k < tile.north@.len() ==> ids@.contains(#[trigger] tile.north@[k])) {
                        Direction::Up
                    } else if !(forall|k: int| 0 <= k < tile.east@.len() ==> ids@.contains(#[trigger] tile.east@[k])) {
                        Direction::Right
                    } else if !(forall|k: int| 0 <= k < tile.south@.len() ==> ids@.contains(#[trigger] tile.south@[k])) {
                        Direction::Down
                    } else {
                        Direction::Left
                    };
                    let k = choose|k: int| 0 <= k < tile.allow_list(d).len() && !ids@.contains(#[trigger] tile.allow_list(d)[k]);
                    let x = tile.allow_list(d)[k];
                    assert(tiles[t as int].1.allow_list(d)[k] == x);
                    if exists|j: int| 0 <= j < tiles.len() && (#[trigger] tiles[j]).0 == x {
                        let j = choose|j: int| 0 <= j < tiles.len() && (#[trigger] tiles[j]).0 == x;
                        assert(ids@[j] == x);
                    }
                    assert(!SchematicAsset::neighbors_known(tiles));
                }
                return Err(FormatError::UnknownNeighbor);
            }
            t = t + 1;
        }
        assert(SchematicAsset::neighbors_known(tiles)) by {
            assert forall|i: int, d: Direction, k: int|
                0 <= i < tiles.len() && 0 <= k < tiles[i].1.allow_list(d).len() implies (exists|j: int|
                    0 <= j < tiles.len() && (#[trigger] tiles[j]).0 == #[trigger] tiles[i].1.allow_list(
                        d,
                    )[k]) by {
                let x = tiles[i].1.allow_list(d)[k];
                assert(ids@.contains(x));
                let j = choose|j: int| 0 <= j < ids@.len() && ids@[j] == x;
                assert(tiles[j].0 == x);
            }
        }
        let mut records = records;
        let mut entries: Vec<(u8, TileSchematic)> = Vec::new();
        let mut m: usize = 0;
        while m < n
            invariant
                0 <= m <= n,
                n == recs.len(),
                ids@.len() == n,
                tiles == parsed(recs),
                records_parse(recs),
                SchematicAsset::keys_unique(tiles),
                exists|j: int| 0 <= j < tiles.len() && (#[trigger] tiles[j]).0 == not_found,
                SchematicAsset::neighbors_known(tiles),
                forall|k: int| 0 <= k < n ==> #[trigger] tiles[k].0 == ids@[k],
                records@ == recs.subrange(m as int, n as int),
                entries@ == tiles.subrange(0, m as int),
            decreases n - m,
        {
            let rec = records.remove(0);
            assert(rec == recs[m as int]);
            assert(tiles[m as int] == (ids@[m as int], rec.1));
            entries.push((ids[m], rec.1));
            m = m + 1;
            assert(entries@ =~= tiles.subrange(0, m as int));
            assert(records@ =~= recs.subrange(m as int, n as int));
        }
        assert(entries@ =~= tiles);
        let s = SchematicAsset { not_found, tiles: entries };
        assert(s.has_id(not_found)) by {
            let j = choose|j: int| 0 <= j < tiles.len() && (#[trigger] tiles[j]).0 == not_found;
            assert(s.tiles@[j].0 == not_found);
        }
        Ok(s)
    }
}

} // verus!
