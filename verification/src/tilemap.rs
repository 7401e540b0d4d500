//! The tilemap decoder: a tileset document and a grid of tile-type codes,
//! combined into a map queryable by coordinate for texture names.

use crate::gridtext::{grid_of, lines_of, parse_i64, parse_i64_spec, row_of, split_fields,
    split_lines, strip_cr_slice, fields_of};
use crate::json::{json_as_array, json_as_str, json_doc_of, json_from_slice, json_get,
    json_shape, JsonShape};
use vstd::prelude::*;

verus! {

/// Why a tileset or tile-grid document was rejected. Decoding is
/// all-or-nothing: no partial tileset or grid ever comes back.
#[derive(Clone, Copy, Debug, PartialEq, Eq, Structural)]
pub enum DecodeError {
    /// The tileset document is not valid JSON.
    InvalidDocument,
    /// The tileset document has no `tiles` array.
    MissingTiles,
    /// A `tiles` element has no string `image` field.
    MissingImage,
    /// A grid field is not a signed decimal integer that fits 64 bits.
    InvalidCell,
}

/// The `image` name one `tiles` element carries: the element must be an
/// object whose `image` field is a string; anything else carries none.
pub open spec fn elem_image(e: JsonShape) -> Option<Seq<char>> {
    match e {
        JsonShape::Obj(m) => if m.dom().contains("image"@) {
            match m["image"@] {
                JsonShape::Text(t) => Some(t),
                _ => None,
            }
        } else {
            None
        },
        _ => None,
    }
}

/// The texture names of a `tiles` array: each element's `image` string, in
/// array order, or the error where any element carries none; all-or-nothing.
pub open spec fn images_of_elems(elems: Seq<JsonShape>) -> Result<Seq<Seq<char>>, DecodeError> {
    if forall|i: int| 0 <= i < elems.len() ==> elem_image(#[trigger] elems[i]) is Some {
        Ok(Seq::new(elems.len(), |i: int| elem_image(elems[i])->Some_0))
    } else {
        Err(DecodeError::MissingImage)
    }
}

/// What decoding a tileset document yields: the `image` names of its
/// `tiles` array in document order, or the error naming the first thing
/// missing — not valid JSON, then no `tiles` array, then an element without
/// a string `image`. Fields other than these are ignored.
pub open spec fn tileset_of(bytes: Seq<u8>) -> Result<Seq<Seq<char>>, DecodeError> {
    match json_doc_of(bytes) {
        None => Err(DecodeError::InvalidDocument),
        Some(doc) => match doc {
            JsonShape::Obj(m) => if m.dom().contains("tiles"@) {
                match m["tiles"@] {
                    JsonShape::Arr(elems) => images_of_elems(elems),
                    _ => Err(DecodeError::MissingTiles),
                }
            } else {
                Err(DecodeError::MissingTiles)
            },
            _ => Err(DecodeError::MissingTiles),
        },
    }
}

/// An ordered list of texture names, indexed by non-negative tile-type
/// code; a negative code means "no tile".
pub struct TileSet {
    texture_names: Vec<String>,
}

impl View for TileSet {
    type V = Seq<Seq<char>>;

    closed spec fn view(&self) -> Seq<Seq<char>> {
        self.texture_names@.map_values(|s: String| s@)
    }
}

impl TileSet {
    /// The texture name that `tile_type` denotes: an entry exists exactly
    /// for the codes `0` up to the tileset's length; every negative code,
    /// and every code past the end, means "no tile".
    pub fn get_texture_name(&self, tile_type: i64) -> (r: Option<&str>)
        ensures
            (r is Some <==> 0 <= tile_type < self@.len()),
            (r matches Some(name) ==> name@ == self@[tile_type as int]),
    {
        if tile_type < 0 {
            None
        } else if (tile_type as u64) >= (self.texture_names.len() as u64) {
            None
        } else {
            Some(self.texture_names[tile_type as usize].as_str())
        }
    }

    /// Decode a tileset document, exactly as [`tileset_of`] has it: an
    /// object carrying a `tiles` array whose elements each carry a string
    /// `image` field, named in tile-type order; anything else is ignored,
    /// and any shortfall fails the whole tileset.
    pub fn from_reader(source: &[u8]) -> (r: Result<TileSet, DecodeError>)
        ensures
            (r is Ok <==> tileset_of(source@) is Ok),
            (r matches Ok(ts) ==> (tileset_of(source@) matches Ok(names) && ts@ == names)),
            (r matches Err(e) ==> Err::<Seq<Seq<char>>, DecodeError>(e) == tileset_of(source@)),
    {
        let doc = match json_from_slice(source) {
            Ok(v) => v,
            Err(_) => {
                return Err(DecodeError::InvalidDocument);
            },
        };
        let tiles_field = match json_get(&doc, "tiles") {
            Some(t) => t,
            None => {
                proof {
                    assert(tileset_of(source@) == Err::<Seq<Seq<char>>, DecodeError>(
                        DecodeError::MissingTiles,
                    ));
                }
                return Err(DecodeError::MissingTiles);
            },
        };
        let values = match json_as_array(tiles_field) {
            Some(a) => a,
            None => {
                return Err(DecodeError::MissingTiles);
            },
        };
        match TileSet::images_from_values(values) {
            Ok(texture_names) => {
                let result = TileSet { texture_names };
                proof {
                    assert(tileset_of(source@) matches Ok(names) && result@ == names);
                }
                Ok(result)
            },
            Err(e) => Err(e),
        }
    }

    /// The `image` string of each element, in array order, exactly as
    /// [`images_of_elems`] has it of the elements' shapes: one name per
    /// element, or none at all where any element lacks one.
    fn images_from_values(values: &Vec<serde_json::Value>) -> (r: Result<Vec<String>, DecodeError>)
        ensures
            ({
                let elems = values@.map_values(|e: serde_json::Value| json_shape(e));
                &&& (r is Ok <==> images_of_elems(elems) is Ok)
                &&& (r matches Ok(names) ==> names@.map_values(|s: String| s@) == images_of_elems(
                    elems,
                )->Ok_0)
                &&& (r matches Err(e) ==> e == DecodeError::MissingImage)
            }),
    {
        let ghost elems = values@.map_values(|e: serde_json::Value| json_shape(e));
        let mut names: Vec<String> = Vec::new();
        let mut i: usize = 0;
        while i < values.len()
            invariant
                i <= values@.len(),
                names@.len() == i,
                elems == values@.map_values(|e: serde_json::Value| json_shape(e)),
                forall|k: int| 0 <= k < i ==> elem_image(#[trigger] elems[k]) is Some,
                forall|k: int|
                    0 <= k < i ==> (#[trigger] names@[k])@ == elem_image(elems[k])->Some_0,
            decreases values@.len() - i,
        {
            proof {
                assert(elems[i as int] == json_shape(values@[i as int]));
            }
            let image = match json_get(&values[i], "image") {
                Some(v) => v,
                None => {
                    proof {
                        assert(elem_image(elems[i as int]) is None);
                    }
                    return Err(DecodeError::MissingImage);
                },
            };
            match json_as_str(image) {
                Some(name) => {
                    proof {
                        assert(elem_image(elems[i as int]) matches Some(t) && name@ == t);
                    }
                    names.push(name);
                },
                None => {
                    proof {
                        assert(elem_image(elems[i as int]) is None);
                    }
                    return Err(DecodeError::MissingImage);
                },
            }
            i = i + 1;
        }
        proof {
            assert(images_of_elems(elems) is Ok);
            assert(names@.map_values(|s: String| s@) =~~= images_of_elems(elems)->Ok_0);
        }
        Ok(names)
    }
}

/// A grid of signed tile-type codes, in rows of possibly unequal length.
pub struct Tiles {
    tiles: Vec<Vec<i64>>,
}

impl View for Tiles {
    type V = Seq<Seq<i64>>;

    closed spec fn view(&self) -> Seq<Seq<i64>> {
        self.tiles@.map_values(|row: Vec<i64>| row@)
    }
}

impl Tiles {
    /// Decode row-delimited, comma-separated signed integers, one row per
    /// line, exactly as [`grid_of`] has it; any malformed field fails the
    /// whole grid.
    pub fn from_reader(source: &[u8]) -> (r: Result<Tiles, DecodeError>)
        ensures
            (r is Ok <==> grid_of(source@) is Some),
            (r matches Ok(t) ==> Some(t@) == grid_of(source@)),
            (r matches Err(e) ==> e == DecodeError::InvalidCell),
    {
        let lines = split_lines(source);
        let ghost all_lines = lines_of(source@);
        proof {
            assert(all_lines.len() == lines@.len());
        }
        let mut rows: Vec<Vec<i64>> = Vec::new();
        let mut y: usize = 0;
        while y < lines.len()
            invariant
                y <= lines@.len(),
                lines@.map_values(|l: &[u8]| l@) == crate::gridtext::raw_lines(source@),
                all_lines == lines_of(source@),
                all_lines.len() == lines@.len(),
                rows@.len() == y,
                forall|k: int| 0 <= k < y ==> row_of(#[trigger] all_lines[k]) is Some,
                forall|k: int|
                    0 <= k < y ==> #[trigger] rows@[k]@ == row_of(all_lines[k])->Some_0,
            decreases lines@.len() - y,
        {
            let line = strip_cr_slice(lines[y]);
            proof {
                assert(all_lines[y as int] == crate::gridtext::strip_cr(
                    lines@.map_values(|l: &[u8]| l@)[y as int],
                ));
                assert(line@ == all_lines[y as int]);
            }
            match Tiles::parse_row(line) {
                Some(row) => rows.push(row),
                None => {
                    proof {
                        assert(row_of(all_lines[y as int]) is None);
                        assert(grid_of(source@) is None);
                    }
                    return Err(DecodeError::InvalidCell);
                },
            }
            y = y + 1;
        }
        let result = Tiles { tiles: rows };
        proof {
            assert(grid_of(source@) is Some);
            assert(result@ =~~= grid_of(source@)->Some_0);
        }
        Ok(result)
    }

    /// The cells of one line, exactly as [`row_of`] has it.
    fn parse_row(line: &[u8]) -> (r: Option<Vec<i64>>)
        ensures
            (r is Some <==> row_of(line@) is Some),
            (r matches Some(v) ==> Some(v@) == row_of(line@)),
    {
        let fields = split_fields(line);
        let ghost fs = fields_of(line@);
        let mut row: Vec<i64> = Vec::new();
        let mut x: usize = 0;
        while x < fields.len()
            invariant
                x <= fields@.len(),
                fields@.map_values(|f: &[u8]| f@) == fs,
                fs == fields_of(line@),
                row@.len() == x,
                forall|k: int| 0 <= k < x ==> parse_i64_spec(#[trigger] fs[k]) is Some,
                forall|k: int| 0 <= k < x ==> #[trigger] row@[k] == parse_i64_spec(fs[k])->Some_0,
            decreases fields@.len() - x,
        {
            proof {
                assert(fields@[x as int]@ == fs[x as int]);
            }
            match parse_i64(fields[x]) {
                Some(v) => row.push(v),
                None => {
                    proof {
                        assert(parse_i64_spec(fs[x as int]) is None);
                        assert(row_of(line@) is None);
                    }
                    return None;
                },
            }
            x = x + 1;
        }
        proof {
            assert(row_of(line@) is Some);
            assert(row@ =~= row_of(line@)->Some_0);
        }
        Some(row)
    }
}

/// The cell a ragged grid shows at `(x, y)`: the stored code within the row,
/// and the absent code `-1` past the row's end.
pub open spec fn padded_cell(rows: Seq<Seq<i64>>, x: int, y: int) -> i64 {
    if x < rows[y].len() {
        rows[y][x]
    } else {
        -1i64
    }
}

/// A tile grid resolved against a tileset, queryable by coordinate.
/// Immutable after construction; rows shorter than the widest are padded
/// with the absent cell.
pub struct Tilemap<'tileset> {
    width: usize,
    height: usize,
    tile_set: &'tileset TileSet,
    tiles: Vec<i64>,
}

impl<'tileset> Tilemap<'tileset> {
    /// The flattened cells form a full `width` by `height` rectangle.
    pub closed spec fn wf(self) -> bool {
        self.tiles@.len() == self.width as int * self.height as int
    }

    /// The grid's width: the longest row's length.
    pub closed spec fn spec_width(self) -> usize {
        self.width
    }

    /// The grid's height: the number of rows.
    pub closed spec fn spec_height(self) -> usize {
        self.height
    }

    /// The tile-type code stored at `(x, y)`.
    pub closed spec fn spec_cell(self, x: int, y: int) -> i64
        recommends
            0 <= x < self.spec_width(),
            0 <= y < self.spec_height(),
            self.wf(),
    {
        self.tiles@[y * self.width as int + x]
    }

    /// The texture names of the tileset this map resolves against.
    pub closed spec fn spec_tile_set(self) -> Seq<Seq<char>> {
        self.tile_set@
    }

    /// Combine a tileset and a grid; an empty grid has no dimensions and is
    /// refused. The width is the longest row's length, the height the row
    /// count, and every cell beyond its row's end reads as the absent code.
    pub fn new(tile_set: &'tileset TileSet, tiles: &Tiles) -> (r: Option<Tilemap<'tileset>>)
        ensures
            (r is Some <==> tiles@.len() > 0),
            (r matches Some(tm) ==> {
                &&& tm.wf()
                &&& tm.spec_height() == tiles@.len()
                &&& (forall|k: int| 0 <= k < tiles@.len() ==> (#[trigger] tiles@[k].len())
                    <= tm.spec_width())
                &&& (exists|k: int| 0 <= k < tiles@.len() && (#[trigger] tiles@[k].len())
                    == tm.spec_width())
                &&& tm.spec_tile_set() == tile_set@
                &&& (forall|x: int, y: int|
                    0 <= x < tm.spec_width() && 0 <= y < tm.spec_height()
                        ==> #[trigger] tm.spec_cell(x, y) == padded_cell(tiles@, x, y))
            }),
    {
        let height = tiles.tiles.len();
        if height == 0 {
            return None;
        }
        let mut width: usize = 0;
        let mut k: usize = 0;
        while k < height
            invariant
                k <= height == tiles@.len(),
                tiles@.len() == tiles.tiles@.len(),
                forall|j: int| 0 <= j < k ==> (#[trigger] tiles@[j].len()) <= width,
                k == 0 ==> width == 0,
                k > 0 ==> exists|j: int| 0 <= j < k && (#[trigger] tiles@[j].len()) == width,
            decreases height - k,
        {
            proof {
                assert(tiles@[k as int] == tiles.tiles@[k as int]@);
            }
            if tiles.tiles[k].len() > width {
                width = tiles.tiles[k].len();
            }
            k = k + 1;
        }
        let mut flat: Vec<i64> = Vec::new();
        let mut y: usize = 0;
        while y < height
            invariant
                y <= height == tiles@.len(),
                tiles@.len() == tiles.tiles@.len(),
                flat@.len() == y * width as int,
                forall|yy: int, xx: int|
                    0 <= yy < y && 0 <= xx < width ==> #[trigger] flat@[yy * width as int + xx]
                        == padded_cell(tiles@, xx, yy),
            decreases height - y,
        {
            let row = &tiles.tiles[y];
            proof {
                assert(tiles@[y as int] == row@);
            }
            let mut x: usize = 0;
            while x < width
                invariant
                    x <= width,
                    y < height == tiles@.len(),
                    tiles@.len() == tiles.tiles@.len(),
                    row@ == tiles@[y as int],
                    flat@.len() == y * width as int + x,
                    forall|yy: int, xx: int|
                        0 <= yy < y && 0 <= xx < width ==> #[trigger] flat@[yy * width as int + xx]
                            == padded_cell(tiles@, xx, yy),
                    forall|xx: int|
                        0 <= xx < x ==> #[trigger] flat@[y * width as int + xx] == padded_cell(
                            tiles@,
                            xx,
                            y as int,
                        ),
                decreases width - x,
            {
                let ghost before = flat@;
                if x < row.len() {
                    flat.push(row[x]);
                } else {
                    flat.push(-1);
                }
                proof {
                    assert forall|yy: int, xx: int|
                        0 <= yy < y && 0 <= xx < width implies #[trigger] flat@[yy * width as int
                        + xx] == padded_cell(tiles@, xx, yy) by {
                        assert(yy * width as int + xx < y * width as int) by (nonlinear_arith)
                            requires
                                0 <= yy <= y as int - 1,
                                0 <= xx < width as int,
                        ;
                        assert(flat@[yy * width as int + xx] == before[yy * width as int + xx]);
                    }
                }
                x = x + 1;
            }
            proof {
                assert(flat@.len() == (y + 1) * width as int) by (nonlinear_arith)
                    requires
                        flat@.len() == y * width as int + width as int,
                ;
                assert(forall|yy: int, xx: int|
                    0 <= yy < y + 1 && 0 <= xx < width ==> #[trigger] flat@[yy * width as int + xx]
                        == padded_cell(tiles@, xx, yy));
            }
            y = y + 1;
        }
        let result = Tilemap { width, height, tile_set, tiles: flat };
        proof {
            assert(result.wf()) by (nonlinear_arith)
                requires
                    flat@.len() == height as int * width as int,
                    result.tiles@.len() == flat@.len(),
                    result.width == width,
                    result.height == height,
            ;
        }
        Some(result)
    }

    /// The grid's width: the longest row's length.
    pub fn width(&self) -> (w: usize)
        ensures
            w == self.spec_width(),
    {
        self.width
    }

    /// The grid's height: the number of rows.
    pub fn height(&self) -> (h: usize)
        ensures
            h == self.spec_height(),
    {
        self.height
    }

    /// The texture name shown at `(x, y)`: `None` out of bounds, for every
    /// negative cell code, and for a code with no tileset entry; otherwise
    /// the tileset's name for the cell's code. A pure query, the same on
    /// every call.
    pub fn get_texture_name_of_tile(&self, x: usize, y: usize) -> (r: Option<&str>)
        requires
            self.wf(),
        ensures
            (r is Some <==> (x < self.spec_width() && y < self.spec_height() && 0 <= self.spec_cell(
                x as int,
                y as int,
            ) < self.spec_tile_set().len())),
            (r matches Some(name) ==> name@ == self.spec_tile_set()[self.spec_cell(
                x as int,
                y as int,
            ) as int]),
    {
        if x >= self.width || y >= self.height {
            return None;
        }
        let total: usize = self.tiles.len();
        proof {
            assert(y * self.width as int + x < self.width as int * self.height as int)
                by (nonlinear_arith)
                requires
                    0 <= x < self.width as int,
                    0 <= y < self.height as int,
            ;
            assert(y * self.width as int + x < total as int);
        }
        let tile_index: usize = y * self.width + x;
        let code: i64 = self.tiles[tile_index];
        self.tile_set.get_texture_name(code)
    }
}

} // verus!
