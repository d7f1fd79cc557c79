//! The palette: reference colours with their glyphs, and the search for the
//! entry nearest to a colour.

use vstd::prelude::*;
use crate::color::{distance, Color};
use crate::error::CoreError;
use crate::raster::{mean_of, Raster, RasterView};
use crate::tile_name::{lemma_glyph_len, parse_tile_name, tile_glyph};

verus! {

/// A tile joins the palette only if its name encodes fewer code points than this.
pub const CODE_POINT_LIMIT: usize = 3;

/// One entry of a palette: a colour and the glyph that stands for it.
pub struct PaletteEntry {
    pub color: Color,
    pub glyph: String,
}

/// What a `PaletteEntry` stands for.
pub struct EntryView {
    pub color: Color,
    pub glyph: Seq<char>,
}

impl View for PaletteEntry {
    type V = EntryView;

    open spec fn view(&self) -> EntryView {
        EntryView { color: self.color, glyph: self.glyph@ }
    }
}

/// The glyph of a cell for which the palette has no entry: the digit zero.
pub open spec fn fallback_glyph() -> Seq<char> {
    seq!['0']
}

/// Entry `i` is the nearest to `color`: no entry is nearer, and each entry
/// before it is farther away. Among entries at the same least distance this
/// is the first.
pub open spec fn is_nearest(palette: Seq<EntryView>, color: Color, i: int) -> bool {
    &&& 0 <= i < palette.len()
    &&& forall|j: int|
        0 <= j < palette.len() ==> distance(color, palette[i].color) <= distance(
            color,
            #[trigger] palette[j].color,
        )
    &&& forall|j: int|
        0 <= j < i ==> distance(color, palette[i].color) < distance(
            color,
            #[trigger] palette[j].color,
        )
}

/// The index of the entry nearest to `color`. An empty palette has none.
pub open spec fn nearest_index(palette: Seq<EntryView>, color: Color) -> Option<int> {
    if palette.len() == 0 {
        None
    } else {
        Some(choose|i: int| is_nearest(palette, color, i))
    }
}

/// The glyph that stands for `color`: that of the nearest entry, or the
/// fallback glyph where the palette is empty.
pub open spec fn nearest_glyph(palette: Seq<EntryView>, color: Color) -> Seq<char> {
    match nearest_index(palette, color) {
        Some(i) => palette[i].glyph,
        None => fallback_glyph(),
    }
}

/// What a tile contributes to the palette. A tile without pixels has no
/// colour, which is a decode failure; then a malformed name is a format
/// failure. Otherwise the tile gives an entry of its mean colour and its
/// glyph, unless the glyph reaches `CODE_POINT_LIMIT`: such a tile is left out.
pub open spec fn tile_entry_of(name: Seq<char>, data: Seq<u8>) -> Result<
    Option<EntryView>,
    CoreError,
> {
    match mean_of(data) {
        None => Err(CoreError::Decode),
        Some(color) => match tile_glyph(name) {
            None => Err(CoreError::Format),
            Some(glyph) => if glyph.len() < CODE_POINT_LIMIT {
                Ok(Some(EntryView { color, glyph }))
            } else {
                Ok(None)
            },
        },
    }
}

/// A reference tile: the name of its file and its pixels.
pub struct Tile {
    pub name: String,
    pub image: Raster,
}

/// What a `Tile` stands for.
pub struct TileView {
    pub name: Seq<char>,
    pub image: RasterView,
}

impl DeepView for Tile {
    type V = TileView;

    open spec fn deep_view(&self) -> TileView {
        TileView { name: self.name@, image: self.image@ }
    }
}

/// The palette of a list of tiles: the entries that the tiles contribute, in
/// the order of the tiles. The first tile that fails makes the whole list fail
/// with its error.
pub open spec fn palette_of(tiles: Seq<TileView>) -> Result<Seq<EntryView>, CoreError>
    decreases tiles.len(),
{
    if tiles.len() == 0 {
        Ok(Seq::empty())
    } else {
        match palette_of(tiles.drop_last()) {
            Err(e) => Err(e),
            Ok(entries) => match tile_entry_of(tiles.last().name, tiles.last().image.data) {
                Err(e) => Err(e),
                Ok(Some(entry)) => Ok(entries.push(entry)),
                Ok(None) => Ok(entries),
            },
        }
    }
}

/// A list of tiles whose beginning fails fails with the same error.
proof fn lemma_palette_failure(tiles: Seq<TileView>, n: int)
    requires
        0 <= n <= tiles.len(),
        palette_of(tiles.take(n)) is Err,
    ensures
        palette_of(tiles) == palette_of(tiles.take(n)),
    decreases tiles.len() - n,
{
    if n < tiles.len() {
        assert(tiles.take(n + 1).drop_last() =~= tiles.take(n));
        lemma_palette_failure(tiles, n + 1);
    } else {
        assert(tiles.take(n) =~= tiles);
    }
}

/// Each entry that a tile contributes has a glyph of at least one code point
/// and of fewer than `CODE_POINT_LIMIT`.
pub proof fn lemma_tile_entry_glyph(name: Seq<char>, data: Seq<u8>)
    ensures
        match tile_entry_of(name, data) {
            Ok(Some(entry)) => 1 <= entry.glyph.len() < CODE_POINT_LIMIT && Some(entry.glyph)
                == tile_glyph(name),
            Ok(None) => tile_glyph(name) is Some && tile_glyph(name).unwrap().len()
                >= CODE_POINT_LIMIT,
            Err(_) => true,
        },
{
    if tile_glyph(name) is Some {
        lemma_glyph_len(name);
    }
}

/// A palette built of tiles has no more entries than there are tiles, and
/// each of its glyphs has at least one code point and fewer than
/// `CODE_POINT_LIMIT`.
pub proof fn lemma_palette_entries(tiles: Seq<TileView>)
    requires
        palette_of(tiles) is Ok,
    ensures
        palette_of(tiles).unwrap().len() <= tiles.len(),
        forall|i: int|
            0 <= i < palette_of(tiles).unwrap().len() ==> 1 <= (#[trigger] palette_of(
                tiles,
            ).unwrap()[i]).glyph.len() < CODE_POINT_LIMIT,
    decreases tiles.len(),
{
    if tiles.len() > 0 {
        lemma_palette_entries(tiles.drop_last());
        lemma_tile_entry_glyph(tiles.last().name, tiles.last().image.data);
    }
}

/// A non-empty palette has a nearest entry for every colour.
pub proof fn lemma_nearest_exists(palette: Seq<EntryView>, color: Color)
    requires
        palette.len() > 0,
    ensures
        exists|i: int| is_nearest(palette, color, i),
    decreases palette.len(),
{
    if palette.len() == 1 {
        assert(is_nearest(palette, color, 0));
    } else {
        let rest = palette.drop_last();
        lemma_nearest_exists(rest, color);
        let b = choose|i: int| is_nearest(rest, color, i);
        let last = palette.len() - 1;
        if distance(color, palette[last].color) < distance(color, palette[b].color) {
            assert(is_nearest(palette, color, last)) by {
                assert forall|j: int| 0 <= j < last implies distance(color, palette[last].color)
                    < distance(color, #[trigger] palette[j].color) by {
                    assert(distance(color, rest[b].color) <= distance(color, rest[j].color));
                }
            }
        } else {
            assert(is_nearest(palette, color, b)) by {
                assert forall|j: int| 0 <= j < palette.len() implies distance(
                    color,
                    palette[b].color,
                ) <= distance(color, #[trigger] palette[j].color) by {
                    if j < last {
                        assert(distance(color, rest[b].color) <= distance(color, rest[j].color));
                    }
                }
                assert forall|j: int| 0 <= j < b implies distance(color, palette[b].color)
                    < distance(color, #[trigger] palette[j].color) by {
                    assert(distance(color, rest[b].color) < distance(color, rest[j].color));
                }
            }
        }
    }
}

/// Only one entry is the nearest: the search has one answer.
pub proof fn lemma_nearest_unique(palette: Seq<EntryView>, color: Color, i: int, k: int)
    requires
        is_nearest(palette, color, i),
        is_nearest(palette, color, k),
    ensures
        i == k,
{
    if i < k {
        assert(distance(color, palette[k].color) < distance(color, palette[i].color));
        assert(distance(color, palette[i].color) <= distance(color, palette[k].color));
    } else if k < i {
        assert(distance(color, palette[i].color) < distance(color, palette[k].color));
        assert(distance(color, palette[k].color) <= distance(color, palette[i].color));
    }
}

/// The nearest entry is what `nearest_index` and `nearest_glyph` give.
pub proof fn lemma_nearest_is_index(palette: Seq<EntryView>, color: Color, i: int)
    requires
        is_nearest(palette, color, i),
    ensures
        nearest_index(palette, color) == Some(i),
        nearest_glyph(palette, color) == palette[i].glyph,
{
    let chosen = choose|k: int| is_nearest(palette, color, k);
    lemma_nearest_unique(palette, color, i, chosen);
}

/// Of a non-empty palette `nearest_index` gives the nearest entry, so the first
/// of those at the least distance.
pub proof fn lemma_nearest_index(palette: Seq<EntryView>, color: Color)
    requires
        palette.len() > 0,
    ensures
        nearest_index(palette, color) is Some,
        is_nearest(palette, color, nearest_index(palette, color).unwrap()),
{
    lemma_nearest_exists(palette, color);
}

/// A palette of a single entry gives that entry's glyph for every colour.
pub proof fn lemma_single_entry(palette: Seq<EntryView>, color: Color)
    requires
        palette.len() == 1,
    ensures
        nearest_glyph(palette, color) == palette[0].glyph,
{
    lemma_nearest_is_index(palette, color, 0);
}

/// An empty palette gives the fallback glyph for every colour.
pub proof fn lemma_empty_palette(palette: Seq<EntryView>, color: Color)
    requires
        palette.len() == 0,
    ensures
        nearest_glyph(palette, color) == fallback_glyph(),
{
}

/// An entry whose colour is the one looked up is at distance zero, so the
/// glyph found belongs to an entry of exactly that colour.
pub proof fn lemma_exact_match(palette: Seq<EntryView>, color: Color, i: int)
    requires
        0 <= i < palette.len(),
        palette[i].color == color,
    ensures
        nearest_index(palette, color) is Some,
        palette[nearest_index(palette, color).unwrap()].color == color,
        nearest_index(palette, color).unwrap() <= i,
{
    lemma_nearest_index(palette, color);
    let n = nearest_index(palette, color).unwrap();
    assert(distance(color, palette[n].color) <= distance(color, palette[i].color));
    if i < n {
        assert(distance(color, palette[n].color) < distance(color, palette[i].color));
    }
}

/// The fallback glyph as a string.
pub fn fallback() -> (glyph: String)
    ensures
        glyph@ == fallback_glyph(),
{
    proof {
        reveal_strlit("0");
    }
    String::from_str("0")
}

/// An ordered collection of entries. The order is that of insertion; it
/// matters only where two entries are equally near to a colour.
pub struct Palette {
    entries: Vec<PaletteEntry>,
}

impl View for Palette {
    type V = Seq<EntryView>;

    closed spec fn view(&self) -> Seq<EntryView> {
        Seq::new(self.entries@.len(), |i: int| self.entries@[i]@)
    }
}

impl Palette {
    /// The empty palette.
    pub fn new() -> (palette: Self)
        ensures
            palette@ == Seq::<EntryView>::empty(),
    {
        Palette { entries: Vec::new() }
    }

    /// The number of entries.
    pub fn len(&self) -> (n: usize)
        ensures
            n == self@.len(),
    {
        self.entries.len()
    }

    /// Whether the palette has no entry.
    pub fn is_empty(&self) -> (empty: bool)
        ensures
            empty == (self@.len() == 0),
    {
        self.entries.len() == 0
    }

    /// Entry `i`, if there is one.
    pub fn get(&self, i: usize) -> (entry: Option<&PaletteEntry>)
        ensures
            match entry {
                Some(e) => i < self@.len() && e@ == self@[i as int],
                None => i >= self@.len(),
            },
    {
        if i < self.entries.len() {
            Some(&self.entries[i])
        } else {
            None
        }
    }

    /// Appends an entry.
    pub fn push(&mut self, entry: PaletteEntry)
        ensures
            final(self)@ == old(self)@.push(entry@),
    {
        self.entries.push(entry);
    }

    /// The index of the entry nearest to `color` by Manhattan distance; of
    /// several equally near entries the first. An empty palette has none.
    pub fn nearest(&self, color: Color) -> (found: Option<usize>)
        ensures
            match found {
                Some(i) => is_nearest(self@, color, i as int),
                None => self@.len() == 0,
            },
            match found {
                Some(i) => nearest_index(self@, color) == Some(i as int),
                None => nearest_index(self@, color) is None,
            },
    {
        let mut best: Option<usize> = None;
        let mut least: u32 = u32::MAX;
        let mut i: usize = 0;
        while i < self.entries.len()
            invariant
                i <= self.entries.len(),
                self@.len() == self.entries.len(),
                forall|j: int| 0 <= j < self.entries.len() ==> self@[j] == self.entries[j]@,
                match best {
                    Some(b) => {
                        &&& is_nearest(self@.take(i as int), color, b as int)
                        &&& least == distance(color, self@[b as int].color)
                    },
                    None => i == 0 && least == u32::MAX,
                },
            decreases self.entries.len() - i,
        {
            let d = color.difference_to(&self.entries[i].color);
            proof {
                // What held of the first `i` entries holds of them among the
                // first `i + 1`, and entry `i` is compared with the best so far.
                let before = self@.take(i as int);
                let after = self@.take(i + 1);
                if let Some(b) = best {
                    assert forall|j: int| 0 <= j < i implies distance(color, before[b as int].color)
                        <= distance(color, #[trigger] after[j].color) by {
                        assert(after[j] == before[j]);
                    }
                    assert forall|j: int| 0 <= j < b implies distance(color, before[b as int].color)
                        < distance(color, #[trigger] after[j].color) by {
                        assert(after[j] == before[j]);
                    }
                }
            }
            if d < least {
                best = Some(i);
                least = d;
            }
            i = i + 1;
        }
        proof {
            assert(self@.take(i as int) =~= self@);
            if let Some(b) = best {
                lemma_nearest_is_index(self@, color, b as int);
            }
        }
        best
    }

    /// The glyph that stands for `color`: that of the nearest entry, or the
    /// fallback glyph where the palette is empty.
    pub fn glyph_for(&self, color: Color) -> (glyph: String)
        ensures
            glyph@ == nearest_glyph(self@, color),
    {
        match self.nearest(color) {
            Some(i) => self.entries[i].glyph.clone(),
            None => fallback(),
        }
    }

    /// Adds what the tile `name` with the pixels `image` contributes, and says
    /// whether that was an entry. On a failure the palette stays as it was.
    pub fn add_tile(&mut self, name: &str, image: &Raster) -> (added: Result<bool, CoreError>)
        ensures
            match tile_entry_of(name@, image@.data) {
                Ok(Some(entry)) => added == Ok::<bool, CoreError>(true) && final(self)@ == old(
                    self,
                )@.push(entry),
                Ok(None) => added == Ok::<bool, CoreError>(false) && final(self)@ == old(self)@,
                Err(e) => added == Err::<bool, CoreError>(e) && final(self)@ == old(self)@,
            },
    {
        match tile_entry(name, image) {
            Ok(Some(entry)) => {
                self.push(entry);
                Ok(true)
            },
            Ok(None) => Ok(false),
            Err(e) => Err(e),
        }
    }
}

/// What the tile `name` with the pixels `image` contributes to a palette: an
/// entry of its mean colour and the glyph that its name encodes, or nothing
/// where the name encodes `CODE_POINT_LIMIT` code points or more.
///
/// Fails with `Decode` for a tile without pixels, and else with `Format` for a
/// malformed name, whatever the number of its code points.
pub fn tile_entry(name: &str, image: &Raster) -> (entry: Result<Option<PaletteEntry>, CoreError>)
    ensures
        match entry {
            Ok(Some(e)) => tile_entry_of(name@, image@.data) == Ok::<Option<EntryView>, CoreError>(
                Some(e@),
            ),
            Ok(None) => tile_entry_of(name@, image@.data) == Ok::<Option<EntryView>, CoreError>(
                None,
            ),
            Err(e) => tile_entry_of(name@, image@.data) == Err::<Option<EntryView>, CoreError>(e),
        },
{
    let color = match image.mean_color() {
        Some(color) => color,
        None => {
            return Err(CoreError::Decode);
        },
    };
    let glyph = match parse_tile_name(name) {
        Ok(glyph) => glyph,
        Err(e) => {
            return Err(e);
        },
    };
    if glyph.as_str().unicode_len() < CODE_POINT_LIMIT {
        Ok(Some(PaletteEntry { color, glyph }))
    } else {
        Ok(None)
    }
}

/// Builds the palette of a list of tiles, in the order of the list: each tile
/// contributes what `tile_entry` gives for it. The first tile that fails ends
/// the work with its error, and no palette is made.
pub fn build_palette(tiles: &Vec<Tile>) -> (built: Result<Palette, CoreError>)
    ensures
        match built {
            Ok(palette) => palette_of(tiles.deep_view()) == Ok::<Seq<EntryView>, CoreError>(
                palette@,
            ),
            Err(e) => palette_of(tiles.deep_view()) == Err::<Seq<EntryView>, CoreError>(e),
        },
{
    let mut palette = Palette::new();
    let mut i: usize = 0;
    while i < tiles.len()
        invariant
            i <= tiles.len(),
            palette_of(tiles.deep_view().take(i as int)) == Ok::<Seq<EntryView>, CoreError>(
                palette@,
            ),
        decreases tiles.len() - i,
    {
        proof {
            assert(tiles.deep_view().take(i + 1).drop_last() =~= tiles.deep_view().take(i as int));
        }
        match palette.add_tile(tiles[i].name.as_str(), &tiles[i].image) {
            Ok(_) => {},
            Err(e) => {
                proof {
                    lemma_palette_failure(tiles.deep_view(), i + 1);
                }
                return Err(e);
            },
        }
        i = i + 1;
    }
    assert(tiles.deep_view().take(i as int) =~= tiles.deep_view());
    Ok(palette)
}

} // verus!
