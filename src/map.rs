use vstd::prelude::*;
use crate::consts::{
    BATTLE_MAP_WIDTH, BATTLE_TILESET_PIXEL_FORMAT, STANDARD_DATA_WITH_OFFSET_TABLE_ALIGNMENT,
    STANDARD_FILE_ALIGNMENT,
    FIELD_MAP_CHUNK_TABLE_ADDRESS, FMAPDATA_OFFSET_TABLE_LENGTH_ADDRESS, NUMBER_OF_FIELD_MAPS,
    TILE_AREA, TREASURE_INFO_OFFSET_TABLE_LENGTH_ADDRESS,
};
use crate::compression::{
    CompressionError, DecompressionError, compress, compressed, decompress, decompressed,
};
use crate::misc::{
    DataWithOffsetTable, chunk_views, parsed_table, palette_color_bits, copy_bytes, palette_bytes,
    u32s_bytes, table_offsets_for, concat_chunks, chunks_len, le_u32_at, read_table_chunks,
    table_chunks, le_u32_bytes, extend_bytes,
    ByteReader, Rgb888, Rgba8888, rgb555_bits, DataWithOffsetTableDeserializationError, DataWithOffsetTableSerializationError,
    MaybeCompressedData, MaybeSerialized, VARINT_LIMIT, Palette, PaletteDeserializationError, Rgb555, StreamError,
};
use crate::utils::{
    AlignToElements, TryFromIntError, lemma_padding_for, necessary_padding_for, padding_for,
};

verus! {

/// How many bits a tileset pixel takes.
#[derive(Debug, Clone, Copy, PartialEq, Eq, PartialOrd, Ord, Hash, Structural)]
pub enum PixelFormat {
    FourBitsPerPixel,
    EightBitsPerPixel,
}

impl PixelFormat {
    pub open spec fn spec_bit(self) -> u8 {
        match self {
            PixelFormat::FourBitsPerPixel => 0,
            PixelFormat::EightBitsPerPixel => 1,
        }
    }

    pub open spec fn spec_from_bit(value: u8) -> Self {
        if value == 0 {
            PixelFormat::FourBitsPerPixel
        } else {
            PixelFormat::EightBitsPerPixel
        }
    }

    /// The format stored in one bit; any value but 0 reads as eight bits.
    pub fn from_bits(value: u8) -> (r: Self)
        ensures
            r == Self::spec_from_bit(value),
    {
        if value == 0 {
            PixelFormat::FourBitsPerPixel
        } else {
            PixelFormat::EightBitsPerPixel
        }
    }

    pub fn into_bits(self) -> (r: u8)
        ensures
            r == self.spec_bit(),
    {
        match self {
            PixelFormat::FourBitsPerPixel => 0,
            PixelFormat::EightBitsPerPixel => 1,
        }
    }

    /// Three formats from bits 0, 1 and 2 of `value`.
    pub fn array3_from_bits(value: u8) -> (r: [Self; 3])
        ensures
            r@ == seq![
                Self::spec_from_bit(value & 1),
                Self::spec_from_bit((value >> 1u8) & 1),
                Self::spec_from_bit((value >> 2u8) & 1),
            ],
    {
        let r = [
            Self::from_bits(value & 1),
            Self::from_bits((value >> 1u8) & 1),
            Self::from_bits((value >> 2u8) & 1),
        ];
        assert(r@ =~= seq![
            Self::spec_from_bit(value & 1),
            Self::spec_from_bit((value >> 1u8) & 1),
            Self::spec_from_bit((value >> 2u8) & 1),
        ]);
        r
    }

    /// Three formats into bits 0, 1 and 2.
    pub fn array3_into_bits(value: [Self; 3]) -> (r: u8)
        ensures
            r == value@[0].spec_bit() | (value@[1].spec_bit() << 1u8) | (value@[2].spec_bit()
                << 2u8),
    {
        value[0].into_bits() | (value[1].into_bits() << 1u8) | (value[2].into_bits() << 2u8)
    }

    /// Bytes that hold one tile in this format.
    pub open spec fn spec_tile_bytes(self) -> nat {
        match self {
            PixelFormat::FourBitsPerPixel => 32,
            PixelFormat::EightBitsPerPixel => 64,
        }
    }

    pub fn tile_bytes(self) -> (r: usize)
        ensures
            r == self.spec_tile_bytes(),
    {
        match self {
            PixelFormat::FourBitsPerPixel => 32,
            PixelFormat::EightBitsPerPixel => 64,
        }
    }
}

/// One 8x8 tile: a palette index per pixel, row by row.
#[derive(Debug, Clone, PartialEq, Eq, Hash)]
pub struct TilesetTile(pub [u8; TILE_AREA]);

#[derive(Debug, Clone, Copy, PartialEq, Eq, Structural)]
pub enum TilesetTileDeserializationError {
    InvalidInputLength,
}

#[derive(Debug, Clone, Copy, PartialEq, Eq, Structural)]
pub enum TilesetTileSerializationError {
    PixelValueTooLarge { pixel_format: PixelFormat },
}

#[derive(Debug, Clone, Copy, PartialEq, Eq, Structural)]
pub enum TilesetTileFromColorsError {
    ColorNotInPalette,
    TryFromInt,
}

/// The pixels that `data` holds in format `pf`: two per byte, low nibble
/// first, or one per byte.
pub open spec fn tile_pixels(data: Seq<u8>, pf: PixelFormat) -> Seq<u8> {
    match pf {
        PixelFormat::FourBitsPerPixel => Seq::new(
            TILE_AREA as nat,
            |i: int|
                if i % 2 == 0 {
                    data[i / 2] & 0x0f
                } else {
                    data[i / 2] >> 4u8
                },
        ),
        PixelFormat::EightBitsPerPixel => data,
    }
}

/// The bytes of `pixels` in format `pf`, when every pixel fits it.
pub open spec fn tile_bytes_of(pixels: Seq<u8>, pf: PixelFormat) -> Seq<u8> {
    match pf {
        PixelFormat::FourBitsPerPixel => Seq::new(
            (pixels.len() / 2) as nat,
            |i: int| pixels[2 * i] | (pixels[2 * i + 1] << 4u8),
        ),
        PixelFormat::EightBitsPerPixel => pixels,
    }
}

/// Every pixel fits format `pf`.
pub open spec fn pixels_fit(pixels: Seq<u8>, pf: PixelFormat) -> bool {
    pf == PixelFormat::FourBitsPerPixel ==> forall|i: int|
        0 <= i < pixels.len() ==> #[trigger] pixels[i] <= 0x0f
}

/// The first index from `j` on at which `palette` holds `c`.
pub open spec fn palette_index_from(palette: Seq<Rgb555>, c: Rgb555, j: nat) -> Option<nat>
    decreases palette.len() - j,
{
    if j >= palette.len() {
        None
    } else if palette[j as int]@ == c@ {
        Some(j)
    } else {
        palette_index_from(palette, c, j + 1)
    }
}

/// The pixel for one colour: 0 for transparency, else the colour's first
/// index in the palette after entry 0.
pub open spec fn pixel_for_color(color: Option<Rgb555>, palette: Seq<Rgb555>) -> Result<
    u8,
    TilesetTileFromColorsError,
> {
    match color {
        None => Ok(0),
        Some(c) => match palette_index_from(palette, c, 1) {
            None => Err(TilesetTileFromColorsError::ColorNotInPalette),
            Some(j) => if j <= 255 {
                Ok(j as u8)
            } else {
                Err(TilesetTileFromColorsError::TryFromInt)
            },
        },
    }
}

/// The pixels for `colors[i..]`, or the error of the first colour that has
/// none.
pub open spec fn pixels_for_colors(
    colors: Seq<Option<Rgb555>>,
    palette: Seq<Rgb555>,
    i: nat,
) -> Result<Seq<u8>, TilesetTileFromColorsError>
    decreases colors.len() - i,
{
    if i >= colors.len() {
        Ok(seq![])
    } else {
        match pixel_for_color(colors[i as int], palette) {
            Err(e) => Err(e),
            Ok(p) => match pixels_for_colors(colors, palette, i + 1) {
                Err(e) => Err(e),
                Ok(rest) => Ok(seq![p] + rest),
            },
        }
    }
}

impl TilesetTile {
    /// Reads a tile: 32 bytes at four bits per pixel, 64 at eight.
    pub fn from_bytes(data: &[u8], pixel_format: PixelFormat) -> (r: Result<
        Self,
        TilesetTileDeserializationError,
    >)
        ensures
            data@.len() != pixel_format.spec_tile_bytes() ==> r == Err::<
                Self,
                TilesetTileDeserializationError,
            >(TilesetTileDeserializationError::InvalidInputLength),
            data@.len() == pixel_format.spec_tile_bytes() ==> r is Ok && r->Ok_0.0@
                == tile_pixels(data@, pixel_format),
    {
        if data.len() != pixel_format.tile_bytes() {
            return Err(TilesetTileDeserializationError::InvalidInputLength);
        }
        let mut pixels = [0u8; TILE_AREA];
        let mut i: usize = 0;
        while i < TILE_AREA
            invariant
                data@.len() == pixel_format.spec_tile_bytes(),
                i <= TILE_AREA,
                forall|t: int| 0 <= t < i ==> pixels@[t] == tile_pixels(data@, pixel_format)[t],
            decreases TILE_AREA - i,
        {
            let p = match pixel_format {
                PixelFormat::FourBitsPerPixel => if i % 2 == 0 {
                    data[i / 2] & 0x0f
                } else {
                    data[i / 2] >> 4u8
                },
                PixelFormat::EightBitsPerPixel => data[i],
            };
            pixels[i] = p;
            i = i + 1;
        }
        assert(pixels@ =~= tile_pixels(data@, pixel_format));
        Ok(TilesetTile(pixels))
    }

    /// Writes a tile; at four bits per pixel every pixel must be below 16.
    pub fn to_bytes(&self, pixel_format: PixelFormat) -> (r: Result<
        Vec<u8>,
        TilesetTileSerializationError,
    >)
        ensures
            pixels_fit(self.0@, pixel_format) ==> r is Ok && r->Ok_0@ == tile_bytes_of(
                self.0@,
                pixel_format,
            ),
            !pixels_fit(self.0@, pixel_format) ==> r == Err::<
                Vec<u8>,
                TilesetTileSerializationError,
            >(TilesetTileSerializationError::PixelValueTooLarge { pixel_format }),
    {
        let mut out: Vec<u8> = Vec::new();
        match pixel_format {
            PixelFormat::FourBitsPerPixel => {
                let mut i: usize = 0;
                while i < TILE_AREA / 2
                    invariant
                        pixel_format == PixelFormat::FourBitsPerPixel,
                        i <= TILE_AREA / 2,
                        forall|t: int| 0 <= t < 2 * i ==> #[trigger] self.0@[t] <= 0x0f,
                        out@ =~= tile_bytes_of(self.0@, pixel_format).take(i as int),
                    decreases TILE_AREA / 2 - i,
                {
                    let p0 = self.0[2 * i];
                    let p1 = self.0[2 * i + 1];
                    if p0 > 0x0f || p1 > 0x0f {
                        return Err(TilesetTileSerializationError::PixelValueTooLarge { pixel_format });
                    }
                    out.push(p0 | (p1 << 4u8));
                    i = i + 1;
                    assert forall|t: int| 0 <= t < 2 * i implies #[trigger] self.0@[t] <= 0x0f by {
                        if t >= 2 * i - 2 {
                            assert(t == 2 * i - 2 || t == 2 * i - 1);
                        }
                    }
                }
            },
            PixelFormat::EightBitsPerPixel => {
                let mut i: usize = 0;
                while i < TILE_AREA
                    invariant
                        pixel_format == PixelFormat::EightBitsPerPixel,
                        i <= TILE_AREA,
                        out@ =~= self.0@.take(i as int),
                    decreases TILE_AREA - i,
                {
                    out.push(self.0[i]);
                    i = i + 1;
                }
            },
        }
        Ok(out)
    }

    /// The tile's colours, each pixel looked up in `palette`.
    pub fn as_bgr555(&self, palette: &Palette) -> (r: [Rgb555; TILE_AREA])
        requires
            forall|i: int| 0 <= i < TILE_AREA ==> (#[trigger] self.0@[i]) < palette.0@.len(),
        ensures
            forall|i: int|
                0 <= i < TILE_AREA ==> #[trigger] r@[i] == palette.0@[self.0@[i] as int],
    {
        self.as_bgr555_with_offset(palette, 0)
    }

    /// The tile's colours, each pixel plus `palette_offset` looked up in
    /// `palette`.
    pub fn as_bgr555_with_offset(&self, palette: &Palette, palette_offset: usize) -> (r: [Rgb555;
        TILE_AREA])
        requires
            forall|i: int|
                0 <= i < TILE_AREA ==> (#[trigger] self.0@[i]) + palette_offset
                    < palette.0@.len(),
        ensures
            forall|i: int|
                0 <= i < TILE_AREA ==> #[trigger] r@[i] == palette.0@[self.0@[i]
                    + palette_offset],
    {
        let mut colors = [Rgb555::from_bits(0); TILE_AREA];
        let plen = palette.0.len();
        let mut i: usize = 0;
        while i < TILE_AREA
            invariant
                i <= TILE_AREA,
                plen == palette.0@.len(),
                forall|t: int|
                    0 <= t < TILE_AREA ==> (#[trigger] self.0@[t]) + palette_offset
                        < palette.0@.len(),
                forall|t: int|
                    0 <= t < i ==> #[trigger] colors@[t] == palette.0@[self.0@[t]
                        + palette_offset],
            decreases TILE_AREA - i,
        {
            colors[i] = palette.0[self.0[i] as usize + palette_offset];
            i = i + 1;
        }
        colors
    }

    /// The tile whose pixels give `colors`: 0 where a colour is absent,
    /// else the colour's first index in `palette` after entry 0.
    pub fn from_bgr555_or_transparent(
        colors: &[Option<Rgb555>; TILE_AREA],
        palette: &Palette,
    ) -> (r: Result<Self, TilesetTileFromColorsError>)
        ensures
            match pixels_for_colors(colors@, palette.0@, 0) {
                Ok(p) => r is Ok && r->Ok_0.0@ == p,
                Err(e) => r == Err::<Self, TilesetTileFromColorsError>(e),
            },
    {
        let mut pixels = [0u8; TILE_AREA];
        let mut i: usize = 0;
        while i < TILE_AREA
            invariant
                i <= TILE_AREA,
                colors@.len() == TILE_AREA,
                forall|t: int| 0 <= t < i ==> pixel_for_color(colors@[t], palette.0@) == Ok::<
                    u8,
                    TilesetTileFromColorsError,
                >(#[trigger] pixels@[t]),
                forall|t: int|
                    0 <= t < i ==> #[trigger] pixel_for_color(colors@[t], palette.0@) is Ok,
            decreases TILE_AREA - i,
        {
            let p = match pixel_index(colors[i], palette) {
                Ok(p) => p,
                Err(e) => {
                    proof {
                        lemma_first_error(colors@, palette.0@, 0, i as nat);
                    }
                    return Err(e);
                },
            };
            pixels[i] = p;
            i = i + 1;
        }
        proof {
            lemma_all_pixels(colors@, palette.0@, 0, pixels@);
        }
        Ok(TilesetTile(pixels))
    }
}

/// A colour with eight bits per channel, each shifted up by three bits;
/// transparent when `clear`, opaque otherwise.
pub open spec fn rgba_of(c: Rgb555, clear: bool) -> Rgba8888 {
    Rgba8888 {
        r: ((c.spec_r() as u16) << 3u16) as u8,
        g: ((c.spec_g() as u16) << 3u16) as u8,
        b: ((c.spec_b() as u16) << 3u16) as u8,
        a: if clear {
            0u8
        } else {
            0xffu8
        },
    }
}

/// The five-bit colour for an eight-bit one, or none when it is transparent.
pub open spec fn color_of_rgba(c: Rgba8888) -> Option<Rgb555> {
    if c.a == 0 {
        None
    } else {
        Some(Rgb555::spec_from_rgb888(Rgb888 { r: c.r, g: c.g, b: c.b }))
    }
}

impl TilesetTile {
    /// The tile's colours with eight bits per channel; pixel 0 is
    /// transparent.
    pub fn as_rgba8888(&self, palette: &Palette) -> (r: [Rgba8888; TILE_AREA])
        requires
            forall|i: int| 0 <= i < TILE_AREA ==> (#[trigger] self.0@[i]) < palette.0@.len(),
        ensures
            forall|i: int|
                0 <= i < TILE_AREA ==> #[trigger] r@[i] == rgba_of(
                    palette.0@[self.0@[i] as int],
                    self.0@[i] == 0,
                ),
    {
        self.as_rgba8888_with_offset(palette, 0)
    }

    /// The tile's colours with eight bits per channel, each pixel plus
    /// `palette_offset` looked up in `palette`; pixel 0 is transparent.
    pub fn as_rgba8888_with_offset(&self, palette: &Palette, palette_offset: usize) -> (r: [Rgba8888;
        TILE_AREA])
        requires
            forall|i: int|
                0 <= i < TILE_AREA ==> (#[trigger] self.0@[i]) + palette_offset
                    < palette.0@.len(),
        ensures
            forall|i: int|
                0 <= i < TILE_AREA ==> #[trigger] r@[i] == rgba_of(
                    palette.0@[self.0@[i] + palette_offset],
                    self.0@[i] == 0,
                ),
    {
        let mut colors = [Rgba8888 { r: 0, g: 0, b: 0, a: 0 }; TILE_AREA];
        let plen = palette.0.len();
        let mut i: usize = 0;
        while i < TILE_AREA
            invariant
                i <= TILE_AREA,
                plen == palette.0@.len(),
                forall|t: int|
                    0 <= t < TILE_AREA ==> (#[trigger] self.0@[t]) + palette_offset
                        < palette.0@.len(),
                forall|t: int|
                    0 <= t < i ==> #[trigger] colors@[t] == rgba_of(
                        palette.0@[self.0@[t] + palette_offset],
                        self.0@[t] == 0,
                    ),
            decreases TILE_AREA - i,
        {
            let p = self.0[i];
            let c = palette.0[p as usize + palette_offset].to_rgb888();
            colors[i] = Rgba8888 { r: c.r, g: c.g, b: c.b, a: if p == 0 { 0x00 } else { 0xff } };
            i = i + 1;
        }
        colors
    }

    /// The tile whose pixels give `colors`: 0 where a colour is
    /// transparent, else the colour's first index in `palette` after entry
    /// 0, each channel cut to five bits.
    pub fn from_rgba8888(colors: &[Rgba8888; TILE_AREA], palette: &Palette) -> (r: Result<
        Self,
        TilesetTileFromColorsError,
    >)
        ensures
            match pixels_for_colors(colors@.map_values(|c: Rgba8888| color_of_rgba(c)), palette.0@, 0) {
                Ok(p) => r is Ok && r->Ok_0.0@ == p,
                Err(e) => r == Err::<Self, TilesetTileFromColorsError>(e),
            },
    {
        let mut opt: [Option<Rgb555>; TILE_AREA] = [None; TILE_AREA];
        let mut i: usize = 0;
        while i < TILE_AREA
            invariant
                i <= TILE_AREA,
                forall|t: int| 0 <= t < i ==> #[trigger] opt@[t] == color_of_rgba(colors@[t]),
            decreases TILE_AREA - i,
        {
            let c = colors[i];
            opt[i] = if c.a == 0 {
                None
            } else {
                Some(Rgb555::from_rgb888(Rgb888 { r: c.r, g: c.g, b: c.b }))
            };
            i = i + 1;
        }
        assert(opt@ =~= colors@.map_values(|c: Rgba8888| color_of_rgba(c)));
        Self::from_bgr555_or_transparent(&opt, palette)
    }
}

proof fn lemma_first_error(
    colors: Seq<Option<Rgb555>>,
    palette: Seq<Rgb555>,
    j: nat,
    i: nat,
)
    requires
        j <= i < colors.len(),
        forall|t: int| j <= t < i ==> #[trigger] pixel_for_color(colors[t], palette) is Ok,
        pixel_for_color(colors[i as int], palette) is Err,
    ensures
        pixels_for_colors(colors, palette, j) == Err::<Seq<u8>, TilesetTileFromColorsError>(
            pixel_for_color(colors[i as int], palette)->Err_0,
        ),
    decreases i - j,
{
    if j < i {
        lemma_first_error(colors, palette, j + 1, i);
    }
}

proof fn lemma_all_pixels(colors: Seq<Option<Rgb555>>, palette: Seq<Rgb555>, j: nat, pixels: Seq<u8>)
    requires
        j <= colors.len() == pixels.len(),
        forall|t: int|
            0 <= t < colors.len() ==> pixel_for_color(colors[t], palette) == Ok::<
                u8,
                TilesetTileFromColorsError,
            >(#[trigger] pixels[t]),
    ensures
        pixels_for_colors(colors, palette, j) == Ok::<Seq<u8>, TilesetTileFromColorsError>(
            pixels.skip(j as int),
        ),
    decreases colors.len() - j,
{
    if j < colors.len() {
        lemma_all_pixels(colors, palette, j + 1, pixels);
        assert(pixels.skip(j as int) =~= seq![pixels[j as int]] + pixels.skip(j as int + 1));
    } else {
        assert(pixels.skip(j as int) =~= Seq::<u8>::empty());
    }
}

/// The pixel for one colour, as `pixel_for_color` states it.
fn pixel_index(color: Option<Rgb555>, palette: &Palette) -> (r: Result<u8, TilesetTileFromColorsError>)
    ensures
        r == pixel_for_color(color, palette.0@),
{
    let c = match color {
        None => return Ok(0),
        Some(c) => c,
    };
    let mut j: usize = 1;
    while j < palette.0.len()
        invariant
            1 <= j,
            color == Some(c),
            palette_index_from(palette.0@, c, 1) == palette_index_from(palette.0@, c, j as nat),
        decreases palette.0@.len() - j,
    {
        if palette.0[j].into_bits() == c.into_bits() {
            assert(palette_index_from(palette.0@, c, j as nat) == Some(j as nat));
            if j <= 255 {
                return Ok(j as u8);
            } else {
                return Err(TilesetTileFromColorsError::TryFromInt);
            }
        }
        j = j + 1;
    }
    Err(TilesetTileFromColorsError::ColorNotInPalette)
}


proof fn lemma_partial_tile(start: int, len: int, size: int)
    requires
        size > 0,
        start % size == 0,
        0 <= start < len,
        len - start < size,
    ensures
        len % size != 0,
{
    if len % size == 0 {
        vstd::arithmetic::div_mod::lemma_fundamental_div_mod(start, size);
        vstd::arithmetic::div_mod::lemma_fundamental_div_mod(len, size);
        let d = len / size - start / size;
        vstd::arithmetic::mul::lemma_mul_is_distributive_sub(size, len / size, start / size);
        assert(len - start == size * d);
        assert(false) by (nonlinear_arith)
            requires
                size > 0,
                len - start == size * d,
                0 < len - start < size,
        ;
    }
}

/// Tiles one after another.
#[derive(Debug, Clone, PartialEq, Eq, Hash, Default)]
pub struct Tileset(pub Vec<TilesetTile>);

/// The bytes of `tiles` one after another, in format `pf`.
pub open spec fn tileset_bytes(tiles: Seq<TilesetTile>, pf: PixelFormat) -> Seq<u8>
    decreases tiles.len(),
{
    if tiles.len() == 0 {
        seq![]
    } else {
        tileset_bytes(tiles.drop_last(), pf) + tile_bytes_of(tiles.last().0@, pf)
    }
}

impl Tileset {
    /// Reads consecutive tiles; the length must be a whole number of tiles.
    pub fn from_bytes(data: &[u8], pixel_format: PixelFormat) -> (r: Result<
        Self,
        TilesetTileDeserializationError,
    >)
        ensures
            data@.len() % pixel_format.spec_tile_bytes() != 0 ==> r == Err::<
                Self,
                TilesetTileDeserializationError,
            >(TilesetTileDeserializationError::InvalidInputLength),
            data@.len() % pixel_format.spec_tile_bytes() == 0 ==> r is Ok && r->Ok_0.0@.len()
                == data@.len() / pixel_format.spec_tile_bytes() && forall|k: int|
                0 <= k < r->Ok_0.0@.len() ==> (#[trigger] r->Ok_0.0@[k]).0@ == tile_pixels(
                    data@.subrange(
                        k * pixel_format.spec_tile_bytes(),
                        (k + 1) * pixel_format.spec_tile_bytes(),
                    ),
                    pixel_format,
                ),
    {
        let size = pixel_format.tile_bytes();
        let len = data.len();
        let mut tiles: Vec<TilesetTile> = Vec::new();
        let mut start: usize = 0;
        while start < len
            invariant
                size == pixel_format.spec_tile_bytes(),
                len == data@.len(),
                start <= len,
                start % size == 0,
                tiles@.len() == start / size,
                forall|k: int|
                    0 <= k < tiles@.len() ==> (#[trigger] tiles@[k]).0@ == tile_pixels(
                        data@.subrange(k * size, (k + 1) * size),
                        pixel_format,
                    ),
            decreases len - start,
        {
            let end = if len - start < size {
                len
            } else {
                start + size
            };
            let tile = match TilesetTile::from_bytes(
                vstd::slice::slice_subrange(data, start, end),
                pixel_format,
            ) {
                Ok(t) => t,
                Err(e) => {
                    proof {
                        lemma_partial_tile(start as int, len as int, size as int);
                    }
                    return Err(e);
                },
            };
            let ghost k = tiles@.len();
            assert(start == k * size) by (nonlinear_arith)
                requires
                    start % size == 0,
                    k == start / size,
                    size > 0,
            {
                vstd::arithmetic::div_mod::lemma_fundamental_div_mod(start as int, size as int);
            }
            assert(end == (k + 1) * size) by (nonlinear_arith)
                requires
                    end == start + size,
                    start == k * size,
            ;
            tiles.push(tile);
            assert((start + size) / (size as int) == k + 1 && (start + size) % (size as int) == 0)
                by (nonlinear_arith)
                requires
                    start == k * size,
                    size > 0,
            {
                vstd::arithmetic::div_mod::lemma_div_multiples_vanish((k + 1) as int, size as int);
                vstd::arithmetic::div_mod::lemma_mod_multiples_basic((k + 1) as int, size as int);
            }
            start = end;
        }
        assert(start == len);
        Ok(Tileset(tiles))
    }

    /// The tiles' bytes one after another.
    pub fn to_bytes(&self, pixel_format: PixelFormat) -> (r: Result<
        Vec<u8>,
        TilesetTileSerializationError,
    >)
        ensures
            (forall|k: int|
                0 <= k < self.0@.len() ==> pixels_fit(#[trigger] self.0@[k].0@, pixel_format))
                ==> r is Ok && r->Ok_0@ == tileset_bytes(self.0@, pixel_format),
            !(forall|k: int|
                0 <= k < self.0@.len() ==> pixels_fit(#[trigger] self.0@[k].0@, pixel_format))
                ==> r == Err::<Vec<u8>, TilesetTileSerializationError>(
                TilesetTileSerializationError::PixelValueTooLarge { pixel_format },
            ),
    {
        let mut out: Vec<u8> = Vec::new();
        let mut i: usize = 0;
        while i < self.0.len()
            invariant
                i <= self.0@.len(),
                forall|k: int| 0 <= k < i ==> pixels_fit(#[trigger] self.0@[k].0@, pixel_format),
                out@ == tileset_bytes(self.0@.take(i as int), pixel_format),
            decreases self.0@.len() - i,
        {
            let bytes = self.0[i].to_bytes(pixel_format)?;
            let mut j: usize = 0;
            let ghost base = out@;
            while j < bytes.len()
                invariant
                    j <= bytes@.len(),
                    out@ == base + bytes@.take(j as int),
                decreases bytes@.len() - j,
            {
                out.push(bytes[j]);
                j = j + 1;
                assert(out@ =~= base + bytes@.take(j as int));
            }
            proof {
                assert(bytes@.take(j as int) =~= bytes@);
                assert(self.0@.take(i + 1).drop_last() =~= self.0@.take(i as int));
            }
            i = i + 1;
        }
        assert(self.0@.take(i as int) =~= self.0@);
        Ok(out)
    }
}

/// One cell of a tile layer: a tileset tile, its flips and the palette
/// bank it uses.
#[derive(Debug, Clone, Copy, PartialEq, Eq, Hash, Default)]
pub struct Tile {
    bits: u16,
}

impl View for Tile {
    type V = u16;

    closed spec fn view(&self) -> u16 {
        self.bits
    }
}

impl Tile {
    pub fn from_bits(bits: u16) -> (t: Self)
        ensures
            t@ == bits,
    {
        Tile { bits }
    }

    pub fn into_bits(self) -> (r: u16)
        ensures
            r == self@,
    {
        self.bits
    }

    /// Bits 0-9.
    pub fn tileset_tile_id(self) -> (r: u16)
        ensures
            r == self@ & 0x3ff,
    {
        self.bits & 0x3ff
    }

    /// Bit 10.
    pub fn flipped_horizontally(self) -> (r: bool)
        ensures
            r == ((self@ >> 10u16) & 1 == 1),
    {
        (self.bits >> 10u16) & 1 == 1
    }

    /// Bit 11.
    pub fn flipped_vertically(self) -> (r: bool)
        ensures
            r == ((self@ >> 11u16) & 1 == 1),
    {
        (self.bits >> 11u16) & 1 == 1
    }

    /// Bits 12-15.
    pub fn palette_offset(self) -> (r: u8)
        ensures
            r == (self@ >> 12u16) as u8,
    {
        (self.bits >> 12u16) as u8
    }
}

/// The pixel formats of a map's three tilesets (bits 0-2) and five unknown
/// bits.
#[derive(Debug, Clone, Copy, PartialEq, Eq, Hash, Default)]
pub struct TilesetsProperties {
    bits: u8,
}

impl View for TilesetsProperties {
    type V = u8;

    closed spec fn view(&self) -> u8 {
        self.bits
    }
}

impl TilesetsProperties {
    pub fn from_bits(bits: u8) -> (t: Self)
        ensures
            t@ == bits,
    {
        TilesetsProperties { bits }
    }

    pub fn into_bits(self) -> (r: u8)
        ensures
            r == self@,
    {
        self.bits
    }

    pub fn tileset_pixel_formats(self) -> (r: [PixelFormat; 3])
        ensures
            r@ == seq![
                PixelFormat::spec_from_bit(self@ & 1),
                PixelFormat::spec_from_bit((self@ >> 1u8) & 1),
                PixelFormat::spec_from_bit((self@ >> 2u8) & 1),
            ],
    {
        let b = self.bits;
        assert((b & 0x07) & 1 == b & 1 && ((b & 0x07) >> 1u8) & 1 == (b >> 1u8) & 1 && ((b & 0x07)
            >> 2u8) & 1 == (b >> 2u8) & 1) by (bit_vector);
        PixelFormat::array3_from_bits(b & 0x07)
    }

    pub fn unk(self) -> (r: u8)
        ensures
            r == self@ >> 3u8,
    {
        self.bits >> 3u8
    }
}

/// The fixed-size record that describes a field map.
#[derive(Debug, Clone, PartialEq, Eq, Hash)]
pub struct FieldMapProperties {
    pub width: u16,
    pub height: u16,
    pub unk_0x04: u8,
    pub tilesets_properties: TilesetsProperties,
    pub unk_0x06: [u8; 6],
}

/// The little-endian bytes of `v`.
pub open spec fn u16_le(v: u16) -> Seq<u8> {
    seq![(v & 0xff) as u8, (v >> 8u16) as u8]
}

impl FieldMapProperties {
    /// The record's twelve bytes.
    pub open spec fn spec_bytes(&self) -> Seq<u8> {
        u16_le(self.width) + u16_le(self.height) + seq![self.unk_0x04, self.tilesets_properties@]
            + self.unk_0x06@
    }

    /// Reads the twelve-byte record.
    pub fn from_reader(inp: &mut ByteReader) -> (r: Result<Self, StreamError>)
        ensures
            final(inp).bytes == old(inp).bytes,
            old(inp).pos + 12 <= old(inp).bytes@.len() ==> r is Ok && r->Ok_0.spec_bytes()
                == old(inp).bytes@.subrange(old(inp).pos as int, old(inp).pos + 12)
                && final(inp).pos == old(inp).pos + 12,
            old(inp).pos + 12 > old(inp).bytes@.len() ==> r == Err::<Self, StreamError>(
                StreamError::UnexpectedEof,
            ),
    {
        let ghost data = inp.bytes@;
        let ghost p = inp.pos as int;
        let w0 = inp.read_u8()?;
        let w1 = inp.read_u8()?;
        let h0 = inp.read_u8()?;
        let h1 = inp.read_u8()?;
        let unk_0x04 = inp.read_u8()?;
        let tp = inp.read_u8()?;
        assert(inp.pos == p + 6);
        let rest = inp.read_bytes(6)?;
        let unk_0x06 = [rest[0], rest[1], rest[2], rest[3], rest[4], rest[5]];
        assert(unk_0x06@ =~= rest@);
        let width = (w0 as u16) | ((w1 as u16) << 8u16);
        let height = (h0 as u16) | ((h1 as u16) << 8u16);
        let r = FieldMapProperties {
            width,
            height,
            unk_0x04,
            tilesets_properties: TilesetsProperties::from_bits(tp),
            unk_0x06,
        };
        proof {
            lemma_u16_le_bits(w0, w1);
            lemma_u16_le_bits(h0, h1);
            assert(u16_le(width) =~= seq![w0, w1]);
            assert(u16_le(height) =~= seq![h0, h1]);
            assert(r.spec_bytes() =~= data.subrange(p, p + 12));
        }
        Ok(r)
    }

    /// Writes the twelve-byte record.
    pub fn to_writer(&self, out: &mut Vec<u8>)
        ensures
            final(out)@ == old(out)@ + self.spec_bytes(),
    {
        out.push((self.width & 0xff) as u8);
        out.push((self.width >> 8u16) as u8);
        out.push((self.height & 0xff) as u8);
        out.push((self.height >> 8u16) as u8);
        out.push(self.unk_0x04);
        out.push(self.tilesets_properties.into_bits());
        let mut i: usize = 0;
        while i < 6
            invariant
                i <= 6,
                out@ == old(out)@ + u16_le(self.width) + u16_le(self.height) + seq![
                    self.unk_0x04,
                    self.tilesets_properties@,
                ] + self.unk_0x06@.take(i as int),
            decreases 6 - i,
        {
            out.push(self.unk_0x06[i]);
            i = i + 1;
            assert(out@ =~= old(out)@ + u16_le(self.width) + u16_le(self.height) + seq![
                self.unk_0x04,
                self.tilesets_properties@,
            ] + self.unk_0x06@.take(i as int));
        }
        assert(self.unk_0x06@.take(6) =~= self.unk_0x06@);
    }
}

proof fn lemma_u16_le_bits(lo: u8, hi: u8)
    by (bit_vector)
    ensures
        (((lo as u16) | ((hi as u16) << 8u16)) & 0xff) as u8 == lo,
        (((lo as u16) | ((hi as u16) << 8u16)) >> 8u16) as u8 == hi,
{
}

/// Reading a record back from the bytes written for it gives it again.
pub proof fn lemma_field_map_properties_round_trip(a: FieldMapProperties, b: FieldMapProperties)
    requires
        a.spec_bytes() == b.spec_bytes(),
    ensures
        a == b,
{
    let (x, y) = (a.spec_bytes(), b.spec_bytes());
    assert(x[0] == y[0] && x[1] == y[1] && x[2] == y[2] && x[3] == y[3]);
    lemma_u16_le_injective(a.width, b.width);
    lemma_u16_le_injective(a.height, b.height);
    assert(x[4] == y[4]);
    assert(x[5] == y[5]);
    lemma_tilesets_properties_view(a.tilesets_properties, b.tilesets_properties);
    assert(a.unk_0x06@ =~= b.unk_0x06@) by {
        assert forall|i: int| 0 <= i < 6 implies a.unk_0x06@[i] == b.unk_0x06@[i] by {
            assert(x[6 + i] == y[6 + i]);
        }
    }
    assert(a.unk_0x06 =~= b.unk_0x06);
}

proof fn lemma_u16_le_injective(a: u16, b: u16)
    requires
        (a & 0xff) as u8 == (b & 0xff) as u8,
        (a >> 8u16) as u8 == (b >> 8u16) as u8,
    ensures
        a == b,
{
    assert(a == b) by (bit_vector)
        requires
            (a & 0xff) as u8 == (b & 0xff) as u8,
            (a >> 8u16) as u8 == (b >> 8u16) as u8,
    ;
}

proof fn lemma_tilesets_properties_view(a: TilesetsProperties, b: TilesetsProperties)
    requires
        a@ == b@,
    ensures
        a == b,
{
}

/// Where a field map's parts are found: its tilesets, its chunk of map
/// data and its treasure data.
#[derive(Debug, Clone, PartialEq, Eq, Hash)]
pub struct FieldMap {
    pub tileset_indexes: [Option<usize>; 3],
    pub map_chunk_index: usize,
    pub treasure_data_index: Option<usize>,
}

/// All field maps with the data files they draw on.
#[derive(Debug, Clone, PartialEq, Eq, Hash)]
pub struct FieldMaps {
    pub fmapdata_chunks: Vec<MaybeCompressedData>,
    pub fmapdata_padding: Vec<u8>,
    pub treasure_data: Vec<Vec<u8>>,
    pub treasure_info_padding: Vec<u8>,
    pub maps: Vec<FieldMap>,
}

#[derive(Debug, Clone, Copy, PartialEq, Eq, Structural)]
pub enum FieldMapChunkFromTableError {
    InvalidNumberOfChunks(usize),
    DataWithOffsetTableDeserialization(DataWithOffsetTableDeserializationError),
    PaletteDeserialization(PaletteDeserializationError),
    Io(StreamError),
}

#[derive(Debug, Clone, Copy, PartialEq, Eq, Structural)]
pub enum FieldMapChunkIntoTableError {
    DataWithOffsetTableSerialization(DataWithOffsetTableSerializationError),
    Io(StreamError),
}

#[derive(Debug, Clone, Copy, PartialEq, Eq, Structural)]
pub enum FieldMapsFromFilesError {
    TryFromInt(TryFromIntError),
    Io(StreamError),
}

#[derive(Debug, Clone, Copy, PartialEq, Eq, Structural)]
pub enum FieldMapsToFilesError {
    IncorrectNumberOfMaps(usize),
    Compression(CompressionError),
    TryFromInt(TryFromIntError),
    Io(StreamError),
}

#[derive(Debug, Clone, Copy, PartialEq, Eq, Structural)]
pub enum BattleMapTilesetDeserializationError {
    Decompression(DecompressionError),
    TilesetTileDeserialization(TilesetTileDeserializationError),
}

#[derive(Debug, Clone, Copy, PartialEq, Eq, Structural)]
pub enum BattleMapTilesetSerializationError {
    TilesetTileSerialization(TilesetTileSerializationError),
    Compression(CompressionError),
}

#[derive(Debug, Clone, Copy, PartialEq, Eq, Structural)]
pub enum BattleMapFileFromTableError {
    InvalidNumberOfChunks(usize),
    PaletteDeserialization(PaletteDeserializationError),
}

#[derive(Debug, Clone, Copy, PartialEq, Eq, Structural)]
pub enum BattleMapFileIntoTableError {
    BattleMapTilesetSerialization(BattleMapTilesetSerializationError),
}


/// `grid::Grid`, which holds the tiles of a tile layer.
#[verifier::external_type_specification]
#[verifier::external_body]
#[verifier::reject_recursive_types(T)]
pub struct ExGrid<T>(grid::Grid<T>);

/// Relies on `grid::Grid`'s `Clone`, which the derived `Clone` of the
/// types holding a grid calls; nothing is stated of the copy.
pub assume_specification<T: Clone>[ <grid::Grid<T> as Clone>::clone ](g: &grid::Grid<T>) -> grid::Grid<T>;

/// The cells of a grid of tiles in the order it stores them (row by row
/// unless it was transposed), as tile bits.
pub uninterp spec fn tile_grid_cells(g: grid::Grid<Tile>) -> Seq<u16>;

/// The column count of a grid of tiles.
pub uninterp spec fn tile_grid_cols(g: grid::Grid<Tile>) -> nat;

/// The bits of each tile.
pub open spec fn tile_bits(tiles: Seq<Tile>) -> Seq<u16> {
    tiles.map_values(|t: Tile| t@)
}

/// `cells` cells fill whole rows of `cols` columns.
pub open spec fn fills_rows(cells: nat, cols: nat) -> bool {
    if cols == 0 {
        cells == 0
    } else {
        cells % cols == 0
    }
}

/// Relies on `grid::Grid::from_vec`: it stores the vector as it is, row by
/// row, with the column count, or 0 when there are no cells; it panics
/// unless the cells fill whole rows.
#[verifier::external_body]
fn grid_from_tiles(tiles: Vec<Tile>, cols: usize) -> (g: grid::Grid<Tile>)
    requires
        fills_rows(tiles@.len(), cols as nat),
    ensures
        tile_grid_cells(g) == tile_bits(tiles@),
        tile_grid_cols(g) == if tiles@.len() == 0 {
            0
        } else {
            cols as nat
        },
{
    grid::Grid::from_vec(tiles, cols)
}

/// Relies on `grid::Grid::iter`: it walks the cells in the order the grid
/// stores them.
#[verifier::external_body]
fn grid_tiles(g: &grid::Grid<Tile>) -> (v: Vec<Tile>)
    ensures
        tile_bits(v@) == tile_grid_cells(*g),
{
    g.iter().copied().collect()
}

/// The tile bits stored little-endian in `data`, two bytes each; an odd
/// last byte is ignored.
pub open spec fn layer_cells(data: Seq<u8>) -> Seq<u16> {
    Seq::new(
        data.len() / 2,
        |i: int| (data[2 * i] as u16) | ((data[2 * i + 1] as u16) << 8u16),
    )
}

/// The little-endian bytes of `cells`.
pub open spec fn cells_bytes(cells: Seq<u16>) -> Seq<u8> {
    Seq::new(
        2 * cells.len(),
        |i: int|
            if i % 2 == 0 {
                (cells[i / 2] & 0xff) as u8
            } else {
                (cells[i / 2] >> 8u16) as u8
            },
    )
}

/// A grid of tiles, row by row.
#[derive(Debug, Clone, PartialEq, Eq, Hash, Default)]
pub struct TileLayer(pub grid::Grid<Tile>);

impl TileLayer {
    /// Reads two little-endian bytes per tile into rows of `width` tiles;
    /// the tiles must fill whole rows.
    pub fn from_bytes(data: &[u8], width: usize) -> (r: Self)
        requires
            fills_rows(data@.len() / 2, width as nat),
        ensures
            tile_grid_cells(r.0) == layer_cells(data@),
            tile_grid_cols(r.0) == if data@.len() / 2 == 0 {
                0
            } else {
                width as nat
            },
    {
        let len = data.len();
        let n = len / 2;
        let mut tiles: Vec<Tile> = Vec::new();
        let mut i: usize = 0;
        while i < n
            invariant
                len == data@.len(),
                n == len / 2,
                i <= n,
                tile_bits(tiles@) =~= layer_cells(data@).take(i as int),
            decreases n - i,
        {
            let lo = data[2 * i];
            let hi = data[2 * i + 1];
            let t = Tile::from_bits((lo as u16) | ((hi as u16) << 8u16));
            let ghost before = tiles@;
            tiles.push(t);
            proof {
                assert(t@ == layer_cells(data@)[i as int]);
                assert(tiles@ == before.push(t));
                assert(tile_bits(tiles@) =~= tile_bits(before).push(t@));
            }
            i = i + 1;
        }
        assert(layer_cells(data@).take(n as int) =~= layer_cells(data@));
        TileLayer(grid_from_tiles(tiles, width))
    }

    /// Two little-endian bytes per tile, row by row.
    pub fn to_bytes(&self) -> (r: Vec<u8>)
        ensures
            r@ == cells_bytes(tile_grid_cells(self.0)),
    {
        let tiles = grid_tiles(&self.0);
        let mut out: Vec<u8> = Vec::new();
        let mut i: usize = 0;
        while i < tiles.len()
            invariant
                i <= tiles@.len(),
                out@ =~= cells_bytes(tile_bits(tiles@).take(i as int)),
            decreases tiles@.len() - i,
        {
            let bits = tiles[i].into_bits();
            out.push((bits & 0xff) as u8);
            out.push((bits >> 8u16) as u8);
            i = i + 1;
        }
        assert(tile_bits(tiles@).take(i as int) =~= tile_bits(tiles@));
        out
    }
}


/// A part of a table that may be absent: `None` when it is empty, else the
/// table read from it.
pub open spec fn optional_table(c: Seq<u8>) -> Result<
    Option<(Seq<Seq<u8>>, Seq<u8>)>,
    DataWithOffsetTableDeserializationError,
> {
    if c.len() == 0 {
        Ok(None)
    } else {
        match parsed_table(c, 0) {
            Ok(t) => Ok(Some(t)),
            Err(e) => Err(e),
        }
    }
}

/// A palette that may be absent: `None` when its bytes are empty, else its
/// colours' bits.
pub open spec fn optional_palette(c: Seq<u8>) -> Result<Option<Seq<u16>>, PaletteDeserializationError> {
    if c.len() == 0 {
        Ok(None)
    } else if c.len() % 2 != 0 {
        Err(PaletteDeserializationError::ExtraBytesInInput)
    } else {
        Ok(Some(Seq::new(c.len() / 2, |i: int| palette_color_bits(c, i))))
    }
}

/// The bits of each colour of `p`.
pub open spec fn palette_bits(p: Palette) -> Seq<u16> {
    p.0@.map_values(|c: Rgb555| c@)
}

/// The width that a map chunk's properties record gives its tile layers.
pub open spec fn chunk_layer_width(chunks: Seq<Seq<u8>>) -> u16 {
    (chunks[6][0] as u16) | ((chunks[6][1] as u16) << 8u16)
}

/// Which error, if any, reading a map chunk from `chunks` gives: the count,
/// the properties record, the two optional tables, then the palettes.
pub open spec fn field_map_chunk_check(chunks: Seq<Seq<u8>>) -> Result<(), FieldMapChunkFromTableError> {
    if chunks.len() != 17 {
        Err(FieldMapChunkFromTableError::InvalidNumberOfChunks(chunks.len() as usize))
    } else if chunks[6].len() < 12 {
        Err(FieldMapChunkFromTableError::Io(StreamError::UnexpectedEof))
    } else if optional_table(chunks[10]) is Err {
        Err(
            FieldMapChunkFromTableError::DataWithOffsetTableDeserialization(
                optional_table(chunks[10])->Err_0,
            ),
        )
    } else if optional_table(chunks[9]) is Err {
        Err(
            FieldMapChunkFromTableError::DataWithOffsetTableDeserialization(
                optional_table(chunks[9])->Err_0,
            ),
        )
    } else if optional_palette(chunks[3]) is Err {
        Err(FieldMapChunkFromTableError::PaletteDeserialization(optional_palette(chunks[3])->Err_0))
    } else if optional_palette(chunks[4]) is Err {
        Err(FieldMapChunkFromTableError::PaletteDeserialization(optional_palette(chunks[4])->Err_0))
    } else if optional_palette(chunks[5]) is Err {
        Err(FieldMapChunkFromTableError::PaletteDeserialization(optional_palette(chunks[5])->Err_0))
    } else {
        Ok(())
    }
}

/// The tile layers that `chunks` holds fill whole rows of the width its
/// properties give.
pub open spec fn field_map_layers_fit(chunks: Seq<Seq<u8>>) -> bool {
    forall|i: int|
        0 <= i < 3 && chunks[i].len() > 0 ==> fills_rows(
            #[trigger] chunks[i].len() / 2,
            chunk_layer_width(chunks) as nat,
        )
}

/// `t` is the table `parsed` describes.
pub open spec fn table_is(t: DataWithOffsetTable, parsed: (Seq<Seq<u8>>, Seq<u8>)) -> bool {
    chunk_views(t.chunks@) == parsed.0 && t.footer@ == parsed.1
}

/// The bytes a table is written as, with its footer.
pub open spec fn table_bytes(t: DataWithOffsetTable) -> Seq<u8> {
    u32s_bytes(table_offsets_for(chunk_views(t.chunks@))) + concat_chunks(chunk_views(t.chunks@))
        + t.footer@
}

/// The offsets of `t` fit in 32 bits.
pub open spec fn table_fits(t: DataWithOffsetTable) -> bool {
    4 * (t.chunks@.len() + 1) + chunks_len(chunk_views(t.chunks@)) <= u32::MAX
}

/// The bytes an optional table is written as: nothing when absent.
pub open spec fn optional_table_bytes(t: Option<DataWithOffsetTable>) -> Seq<u8> {
    match t {
        Some(t) => table_bytes(t),
        None => seq![],
    }
}

/// The bytes an optional tile layer is written as: nothing when absent.
pub open spec fn optional_layer_bytes(l: Option<TileLayer>) -> Seq<u8> {
    match l {
        Some(l) => cells_bytes(tile_grid_cells(l.0)),
        None => seq![],
    }
}

/// The bytes an optional palette is written as: nothing when absent.
pub open spec fn optional_palette_bytes(p: Option<Palette>) -> Seq<u8> {
    match p {
        Some(p) => palette_bytes(p.0@),
        None => seq![],
    }
}

/// One field map's data: tile layers, palettes, properties and parts not
/// yet understood.
#[derive(Debug, Clone, PartialEq, Eq, Hash)]
pub struct FieldMapChunk {
    pub tile_layers: [Option<TileLayer>; 3],
    pub palettes: [Option<Palette>; 3],
    pub properties: FieldMapProperties,
    pub unk7: Vec<u8>,
    pub unk8: Vec<u8>,
    pub unk9: Option<DataWithOffsetTable>,
    pub unk10: Option<DataWithOffsetTable>,
    pub unk11: Vec<u8>,
    pub unk12: Vec<u8>,
    pub unk13: Vec<u8>,
    pub unk14: Vec<u8>,
    pub unk15: Vec<u8>,
    pub unk16: Vec<u8>,
    pub padding: Vec<u8>,
}

fn optional_table_from(c: &Vec<u8>) -> (r: Result<Option<DataWithOffsetTable>, DataWithOffsetTableDeserializationError>)
    ensures
        match optional_table(c@) {
            Ok(None) => r == Ok::<Option<DataWithOffsetTable>, DataWithOffsetTableDeserializationError>(None),
            Ok(Some(t)) => r is Ok && r->Ok_0 is Some && table_is(r->Ok_0->Some_0, t),
            Err(e) => r == Err::<Option<DataWithOffsetTable>, DataWithOffsetTableDeserializationError>(e),
        },
{
    if c.len() == 0 {
        return Ok(None);
    }
    let mut reader = ByteReader::new(c.as_slice());
    let t = DataWithOffsetTable::from_reader(&mut reader)?;
    Ok(Some(t))
}

fn optional_palette_from(c: &Vec<u8>) -> (r: Result<Option<Palette>, PaletteDeserializationError>)
    ensures
        match optional_palette(c@) {
            Ok(None) => r == Ok::<Option<Palette>, PaletteDeserializationError>(None),
            Ok(Some(bits)) => r is Ok && r->Ok_0 is Some && palette_bits(r->Ok_0->Some_0) == bits,
            Err(e) => r == Err::<Option<Palette>, PaletteDeserializationError>(e),
        },
{
    if c.len() == 0 {
        return Ok(None);
    }
    let p = Palette::from_bytes(c.as_slice())?;
    assert(palette_bits(p) =~= Seq::new(c@.len() / 2, |i: int| palette_color_bits(c@, i)));
    Ok(Some(p))
}

fn optional_layer_from(c: &Vec<u8>, width: usize) -> (r: Option<TileLayer>)
    requires
        c@.len() > 0 ==> fills_rows(c@.len() / 2, width as nat),
    ensures
        c@.len() == 0 ==> r is None,
        c@.len() > 0 ==> r is Some && tile_grid_cells(r->Some_0.0) == layer_cells(c@),
{
    if c.len() == 0 {
        None
    } else {
        Some(TileLayer::from_bytes(c.as_slice(), width))
    }
}

impl FieldMapChunk {
    /// Reads a map chunk from the seventeen parts of its table: three tile
    /// layers, three palettes, the properties record, two parts that are
    /// tables themselves and eight opaque parts. Empty layers, palettes
    /// and tables are absent.
    pub fn from_table(value: DataWithOffsetTable) -> (r: Result<Self, FieldMapChunkFromTableError>)
        requires
            field_map_chunk_check(chunk_views(value.chunks@)) is Ok ==> field_map_layers_fit(
                chunk_views(value.chunks@),
            ),
        ensures
            ({
                let c = chunk_views(value.chunks@);
                match field_map_chunk_check(c) {
                    Err(e) => r == Err::<Self, FieldMapChunkFromTableError>(e),
                    Ok(_) => r is Ok && {
                        let m = r->Ok_0;
                        &&& m.properties.spec_bytes() == c[6].take(12)
                        &&& m.unk7@ == c[7] && m.unk8@ == c[8]
                        &&& m.unk11@ == c[11] && m.unk12@ == c[12] && m.unk13@ == c[13]
                        &&& m.unk14@ == c[14] && m.unk15@ == c[15] && m.unk16@ == c[16]
                        &&& m.padding@ == value.footer@
                        &&& (c[9].len() == 0 <==> m.unk9 is None)
                        &&& (c[9].len() > 0 ==> table_is(m.unk9->Some_0, optional_table(c[9])->Ok_0->Some_0))
                        &&& (c[10].len() == 0 <==> m.unk10 is None)
                        &&& (c[10].len() > 0 ==> table_is(m.unk10->Some_0, optional_table(c[10])->Ok_0->Some_0))
                        &&& forall|i: int| 0 <= i < 3 ==> {
                            &&& (c[3 + i].len() == 0 <==> (#[trigger] m.palettes@[i]) is None)
                            &&& (c[3 + i].len() > 0 ==> palette_bits(m.palettes@[i]->Some_0)
                                == optional_palette(c[3 + i])->Ok_0->Some_0)
                        }
                        &&& forall|i: int| 0 <= i < 3 ==> {
                            &&& (c[i].len() == 0 <==> (#[trigger] m.tile_layers@[i]) is None)
                            &&& (c[i].len() > 0 ==> tile_grid_cells(m.tile_layers@[i]->Some_0.0)
                                == layer_cells(c[i]))
                        }
                    },
                }
            }),
    {
        let ghost c = chunk_views(value.chunks@);
        let n = value.chunks.len();
        if n != 17 {
            return Err(FieldMapChunkFromTableError::InvalidNumberOfChunks(n));
        }
        assert forall|i: int| 0 <= i < 17 implies #[trigger] value.chunks@[i]@ == c[i] by {}
        let mut reader = ByteReader::new(value.chunks[6].as_slice());
        let properties = match FieldMapProperties::from_reader(&mut reader) {
            Ok(p) => p,
            Err(e) => return Err(FieldMapChunkFromTableError::Io(e)),
        };
        let unk10 = match optional_table_from(&value.chunks[10]) {
            Ok(t) => t,
            Err(e) => return Err(FieldMapChunkFromTableError::DataWithOffsetTableDeserialization(e)),
        };
        let unk9 = match optional_table_from(&value.chunks[9]) {
            Ok(t) => t,
            Err(e) => return Err(FieldMapChunkFromTableError::DataWithOffsetTableDeserialization(e)),
        };
        let p0 = match optional_palette_from(&value.chunks[3]) {
            Ok(p) => p,
            Err(e) => return Err(FieldMapChunkFromTableError::PaletteDeserialization(e)),
        };
        let p1 = match optional_palette_from(&value.chunks[4]) {
            Ok(p) => p,
            Err(e) => return Err(FieldMapChunkFromTableError::PaletteDeserialization(e)),
        };
        let p2 = match optional_palette_from(&value.chunks[5]) {
            Ok(p) => p,
            Err(e) => return Err(FieldMapChunkFromTableError::PaletteDeserialization(e)),
        };
        let width = properties.width as usize;
        proof {
            let b = c[6];
            assert(properties.spec_bytes() == b.subrange(0, 12));
            assert(properties.spec_bytes()[0] == b[0] && properties.spec_bytes()[1] == b[1]);
            lemma_u16_le_bits(b[0], b[1]);
            lemma_u16_le_injective(properties.width, chunk_layer_width(c));
        }
        let l0 = optional_layer_from(&value.chunks[0], width);
        let l1 = optional_layer_from(&value.chunks[1], width);
        let l2 = optional_layer_from(&value.chunks[2], width);
        let r = FieldMapChunk {
            tile_layers: [l0, l1, l2],
            palettes: [p0, p1, p2],
            properties,
            unk7: copy_bytes(value.chunks[7].as_slice()),
            unk8: copy_bytes(value.chunks[8].as_slice()),
            unk9,
            unk10,
            unk11: copy_bytes(value.chunks[11].as_slice()),
            unk12: copy_bytes(value.chunks[12].as_slice()),
            unk13: copy_bytes(value.chunks[13].as_slice()),
            unk14: copy_bytes(value.chunks[14].as_slice()),
            unk15: copy_bytes(value.chunks[15].as_slice()),
            unk16: copy_bytes(value.chunks[16].as_slice()),
            padding: value.footer,
        };
        assert(c[6].take(12) =~= c[6].subrange(0, 12));
        Ok(r)
    }

    /// The seventeen parts of the map chunk's table, absent parts written
    /// as empty ones; fails when a nested table's offsets overflow.
    pub fn into_table(self) -> (r: Result<DataWithOffsetTable, FieldMapChunkIntoTableError>)
        ensures
            self.unk9 is Some && !table_fits(self.unk9->Some_0) ==> r == Err::<
                DataWithOffsetTable,
                FieldMapChunkIntoTableError,
            >(
                FieldMapChunkIntoTableError::DataWithOffsetTableSerialization(
                    DataWithOffsetTableSerializationError::TryFromInt(TryFromIntError),
                ),
            ),
            !(self.unk9 is Some && !table_fits(self.unk9->Some_0)) && self.unk10 is Some
                && !table_fits(self.unk10->Some_0) ==> r == Err::<
                DataWithOffsetTable,
                FieldMapChunkIntoTableError,
            >(
                FieldMapChunkIntoTableError::DataWithOffsetTableSerialization(
                    DataWithOffsetTableSerializationError::TryFromInt(TryFromIntError),
                ),
            ),
            !(self.unk9 is Some && !table_fits(self.unk9->Some_0)) && !(self.unk10 is Some
                && !table_fits(self.unk10->Some_0)) ==> r is Ok && r->Ok_0.footer@
                == self.padding@ && chunk_views(r->Ok_0.chunks@) == seq![
                optional_layer_bytes(self.tile_layers@[0]),
                optional_layer_bytes(self.tile_layers@[1]),
                optional_layer_bytes(self.tile_layers@[2]),
                optional_palette_bytes(self.palettes@[0]),
                optional_palette_bytes(self.palettes@[1]),
                optional_palette_bytes(self.palettes@[2]),
                self.properties.spec_bytes(),
                self.unk7@,
                self.unk8@,
                optional_table_bytes(self.unk9),
                optional_table_bytes(self.unk10),
                self.unk11@,
                self.unk12@,
                self.unk13@,
                self.unk14@,
                self.unk15@,
                self.unk16@,
            ],
    {
        let unk9 = match table_to_bytes(self.unk9) {
            Ok(b) => b,
            Err(e) => return Err(FieldMapChunkIntoTableError::DataWithOffsetTableSerialization(e)),
        };
        let unk10 = match table_to_bytes(self.unk10) {
            Ok(b) => b,
            Err(e) => return Err(FieldMapChunkIntoTableError::DataWithOffsetTableSerialization(e)),
        };
        let mut props: Vec<u8> = Vec::new();
        self.properties.to_writer(&mut props);
        let mut chunks: Vec<Vec<u8>> = Vec::new();
        chunks.push(layer_to_bytes(&self.tile_layers[0]));
        chunks.push(layer_to_bytes(&self.tile_layers[1]));
        chunks.push(layer_to_bytes(&self.tile_layers[2]));
        chunks.push(palette_to_bytes(&self.palettes[0]));
        chunks.push(palette_to_bytes(&self.palettes[1]));
        chunks.push(palette_to_bytes(&self.palettes[2]));
        chunks.push(props);
        chunks.push(self.unk7);
        chunks.push(self.unk8);
        chunks.push(unk9);
        chunks.push(unk10);
        chunks.push(self.unk11);
        chunks.push(self.unk12);
        chunks.push(self.unk13);
        chunks.push(self.unk14);
        chunks.push(self.unk15);
        chunks.push(self.unk16);
        let r = DataWithOffsetTable { chunks, footer: self.padding };
        assert(chunk_views(r.chunks@) =~= seq![
            optional_layer_bytes(self.tile_layers@[0]),
            optional_layer_bytes(self.tile_layers@[1]),
            optional_layer_bytes(self.tile_layers@[2]),
            optional_palette_bytes(self.palettes@[0]),
            optional_palette_bytes(self.palettes@[1]),
            optional_palette_bytes(self.palettes@[2]),
            self.properties.spec_bytes(),
            self.unk7@,
            self.unk8@,
            optional_table_bytes(self.unk9),
            optional_table_bytes(self.unk10),
            self.unk11@,
            self.unk12@,
            self.unk13@,
            self.unk14@,
            self.unk15@,
            self.unk16@,
        ]);
        Ok(r)
    }
}

fn layer_to_bytes(l: &Option<TileLayer>) -> (r: Vec<u8>)
    ensures
        r@ == optional_layer_bytes(*l),
{
    match l {
        Some(l) => l.to_bytes(),
        None => Vec::new(),
    }
}

fn palette_to_bytes(p: &Option<Palette>) -> (r: Vec<u8>)
    ensures
        r@ == optional_palette_bytes(*p),
{
    match p {
        Some(p) => p.to_bytes(),
        None => Vec::new(),
    }
}

/// The bytes of an optional table with its footer.
fn table_to_bytes(t: Option<DataWithOffsetTable>) -> (r: Result<Vec<u8>, DataWithOffsetTableSerializationError>)
    ensures
        t is Some && !table_fits(t->Some_0) ==> r == Err::<
            Vec<u8>,
            DataWithOffsetTableSerializationError,
        >(DataWithOffsetTableSerializationError::TryFromInt(TryFromIntError)),
        !(t is Some && !table_fits(t->Some_0)) ==> r is Ok && r->Ok_0@ == optional_table_bytes(t),
{
    match t {
        None => Ok(Vec::new()),
        Some(mut table) => {
            let ghost before = table;
            let mut buf: Vec<u8> = Vec::new();
            let res = table.to_writer(&mut buf, None, true);
            proof {
                assert(chunk_views(table.chunks@) =~= chunk_views(before.chunks@));
            }
            match res {
                Ok(()) => {
                    assert(buf@ =~= table_bytes(before));
                    Ok(buf)
                },
                Err(e) => Err(e),
            }
        },
    }
}


/// `b` without its trailing zero bytes.
pub open spec fn trim_zeros(b: Seq<u8>) -> Seq<u8>
    decreases b.len(),
{
    if b.len() == 0 {
        b
    } else if b.last() == 0 {
        trim_zeros(b.drop_last())
    } else {
        b
    }
}

/// Every tile fits format `pf`.
pub open spec fn tiles_fit(tiles: Seq<TilesetTile>, pf: PixelFormat) -> bool {
    forall|k: int| 0 <= k < tiles.len() ==> pixels_fit(#[trigger] tiles[k].0@, pf)
}

/// A battle tileset can be written: when its pixels fit four bits, some
/// byte of it is not zero.
pub open spec fn tileset_writable(t: Tileset) -> bool {
    tiles_fit(t.0@, BATTLE_TILESET_PIXEL_FORMAT) ==> exists|i: int|
        0 <= i < tileset_bytes(t.0@, BATTLE_TILESET_PIXEL_FORMAT).len() && #[trigger] tileset_bytes(
            t.0@,
            BATTLE_TILESET_PIXEL_FORMAT,
        )[i] != 0
}

/// What writing a battle tileset gives: its four-bit bytes without the
/// trailing zeros, compressed.
pub open spec fn battle_tileset_bytes(t: Tileset) -> Result<Seq<u8>, BattleMapTilesetSerializationError> {
    if !tiles_fit(t.0@, BATTLE_TILESET_PIXEL_FORMAT) {
        Err(
            BattleMapTilesetSerializationError::TilesetTileSerialization(
                TilesetTileSerializationError::PixelValueTooLarge {
                    pixel_format: BATTLE_TILESET_PIXEL_FORMAT,
                },
            ),
        )
    } else if trim_zeros(tileset_bytes(t.0@, BATTLE_TILESET_PIXEL_FORMAT)).len() >= VARINT_LIMIT {
        Err(BattleMapTilesetSerializationError::Compression(CompressionError::TryFromInt))
    } else {
        Ok(compressed(trim_zeros(tileset_bytes(t.0@, BATTLE_TILESET_PIXEL_FORMAT))))
    }
}

/// One battle map: its compressed tileset, palette and three tile layers
/// of 64 tiles a row, and parts not yet understood.
#[derive(Debug, Clone, PartialEq, Eq, Hash)]
pub struct BattleMap {
    pub unk0: Vec<u8>,
    /// Compressing and decompressing the tileset is slow, so it is only
    /// read when needed.
    pub tileset: MaybeSerialized<Tileset>,
    pub palette: Palette,
    pub tile_layers: [TileLayer; 3],
    pub unk6: Vec<u8>,
    pub unk7: Vec<u8>,
}

impl BattleMap {
    /// Decompresses a battle tileset, pads it with zeros to whole tiles and
    /// reads it at four bits per pixel.
    pub fn deserialize_tileset(data: &[u8]) -> (r: Result<Tileset, BattleMapTilesetDeserializationError>)
        ensures
            match decompressed(data@, false) {
                Err(e) => r == Err::<Tileset, BattleMapTilesetDeserializationError>(
                    BattleMapTilesetDeserializationError::Decompression(e),
                ),
                Ok(v) => r is Ok && {
                    let padded = v + Seq::new(padding_for(v.len(), 32), |i: int| 0u8);
                    &&& r->Ok_0.0@.len() == padded.len() / 32
                    &&& forall|k: int|
                        0 <= k < r->Ok_0.0@.len() ==> (#[trigger] r->Ok_0.0@[k]).0@ == tile_pixels(
                            padded.subrange(k * 32, (k + 1) * 32),
                            BATTLE_TILESET_PIXEL_FORMAT,
                        )
                },
            },
    {
        let mut buf = match decompress(data, false) {
            Ok(b) => b,
            Err(e) => return Err(BattleMapTilesetDeserializationError::Decompression(e)),
        };
        let ghost v = buf@;
        buf.align_to_elements(TILE_AREA / 2);
        proof {
            lemma_padding_for(v.len(), 32);
        }
        match Tileset::from_bytes(buf.as_slice(), BATTLE_TILESET_PIXEL_FORMAT) {
            Ok(t) => Ok(t),
            Err(e) => Err(BattleMapTilesetDeserializationError::TilesetTileDeserialization(e)),
        }
    }

    /// Writes a tileset at four bits per pixel, drops the trailing zero
    /// bytes and compresses the rest.
    pub fn serialize_tileset(tileset: &Tileset) -> (r: Result<Vec<u8>, BattleMapTilesetSerializationError>)
        requires
            tileset_writable(*tileset),
        ensures
            match battle_tileset_bytes(*tileset) {
                Ok(b) => r is Ok && r->Ok_0@ == b,
                Err(e) => r == Err::<Vec<u8>, BattleMapTilesetSerializationError>(e),
            },
    {
        let bytes = match tileset.to_bytes(BATTLE_TILESET_PIXEL_FORMAT) {
            Ok(b) => b,
            Err(e) => return Err(BattleMapTilesetSerializationError::TilesetTileSerialization(e)),
        };
        let mut end = bytes.len();
        assert(bytes@.take(end as int) =~= bytes@);
        while end > 0 && bytes[end - 1] == 0
            invariant
                end <= bytes@.len(),
                trim_zeros(bytes@) == trim_zeros(bytes@.take(end as int)),
                forall|i: int| end <= i < bytes@.len() ==> bytes@[i] == 0,
            decreases end,
        {
            proof {
                assert(bytes@.take(end as int).drop_last() =~= bytes@.take(end - 1));
            }
            end = end - 1;
        }
        proof {
            if end == 0 {
                assert(false);
            }
            assert(bytes@.take(end as int).last() != 0);
        }
        match compress(vstd::slice::slice_subrange(bytes.as_slice(), 0, end)) {
            Ok(c) => Ok(c),
            Err(e) => Err(BattleMapTilesetSerializationError::Compression(e)),
        }
    }
}

/// A file of battle maps: eight parts per map, then nine more parts.
#[derive(Debug, Clone, PartialEq, Eq, Hash)]
pub struct BattleMapFile {
    pub maps: Vec<BattleMap>,
    pub unk_last: [Vec<u8>; 9],
    pub padding: Vec<u8>,
}

/// The error, if any, of reading battle maps from `chunks`: the count, then
/// the first map whose palette has an odd length.
pub open spec fn battle_map_file_check(chunks: Seq<Seq<u8>>) -> Result<(), BattleMapFileFromTableError> {
    if chunks.len() % 8 != 1 {
        Err(BattleMapFileFromTableError::InvalidNumberOfChunks(chunks.len() as usize))
    } else if exists|m: int|
        0 <= m < (chunks.len() - 9) / 8 && #[trigger] chunks[8 * m + 2].len() % 2 != 0 {
        Err(
            BattleMapFileFromTableError::PaletteDeserialization(
                PaletteDeserializationError::ExtraBytesInInput,
            ),
        )
    } else {
        Ok(())
    }
}

/// Each map's tile layers fill whole rows of 64 tiles, at least for the
/// maps that reading reaches.
pub open spec fn battle_layers_fit(chunks: Seq<Seq<u8>>) -> bool {
    forall|m: int, j: int|
        0 <= m < (chunks.len() - 9) / 8 && 3 <= j < 6 && (forall|q: int|
            0 <= q <= m ==> #[trigger] chunks[8 * q + 2].len() % 2 == 0) ==> fills_rows(
            #[trigger] chunks[8 * m + j].len() / 2,
            BATTLE_MAP_WIDTH as nat,
        )
}

/// Map `m` is what the eight parts from `8 * m` describe.
pub open spec fn battle_map_is(b: BattleMap, chunks: Seq<Seq<u8>>, m: int) -> bool {
    &&& b.unk0@ == chunks[8 * m]
    &&& b.tileset is Serialized && b.tileset->Serialized_0@ == chunks[8 * m + 1]
    &&& palette_bits(b.palette) == Seq::new(
        chunks[8 * m + 2].len() / 2,
        |i: int| palette_color_bits(chunks[8 * m + 2], i),
    )
    &&& forall|j: int|
        0 <= j < 3 ==> tile_grid_cells((#[trigger] b.tile_layers@[j]).0) == layer_cells(
            chunks[8 * m + 3 + j],
        )
    &&& b.unk6@ == chunks[8 * m + 6]
    &&& b.unk7@ == chunks[8 * m + 7]
}

impl BattleMapFile {
    /// Reads the maps from a table of `8 * n + 9` parts.
    pub fn from_table(value: DataWithOffsetTable) -> (r: Result<Self, BattleMapFileFromTableError>)
        requires
            value.chunks@.len() != 1,
            battle_layers_fit(chunk_views(value.chunks@)),
        ensures
            ({
                let c = chunk_views(value.chunks@);
                match battle_map_file_check(c) {
                    Err(e) => r == Err::<Self, BattleMapFileFromTableError>(e),
                    Ok(_) => r is Ok && {
                        let f = r->Ok_0;
                        &&& f.padding@ == value.footer@
                        &&& f.maps@.len() == (c.len() - 9) / 8
                        &&& forall|m: int| 0 <= m < f.maps@.len() ==> battle_map_is(#[trigger] f.maps@[m], c, m)
                        &&& forall|j: int| 0 <= j < 9 ==> (#[trigger] f.unk_last@[j])@ == c[c.len() - 9 + j]
                    },
                }
            }),
    {
        let ghost c = chunk_views(value.chunks@);
        let n = value.chunks.len();
        if n % 8 != 1 {
            return Err(BattleMapFileFromTableError::InvalidNumberOfChunks(n));
        }
        let count = (n - 9) / 8;
        assert(8 * count + 9 == n);
        let mut maps: Vec<BattleMap> = Vec::new();
        let mut m: usize = 0;
        while m < count
            invariant
                n == value.chunks@.len(),
                c == chunk_views(value.chunks@),
                n % 8 == 1,
                n != 1,
                count == (n - 9) / 8,
                8 * count + 9 == n,
                battle_layers_fit(c),
                m <= count,
                maps@.len() == m,
                forall|q: int| 0 <= q < m ==> #[trigger] c[8 * q + 2].len() % 2 == 0,
                forall|q: int| 0 <= q < m ==> battle_map_is(#[trigger] maps@[q], c, q),
            decreases count - m,
        {
            let base = 8 * m;
            assert forall|j: int| 0 <= j < 8 implies #[trigger] value.chunks@[base + j]@ == c[base + j] by {}
            let palette = match Palette::from_bytes(value.chunks[base + 2].as_slice()) {
                Ok(p) => p,
                Err(e) => {
                    assert(c[8 * (m as int) + 2].len() % 2 != 0);
                    return Err(BattleMapFileFromTableError::PaletteDeserialization(e));
                },
            };
            assert(forall|q: int| 0 <= q <= m ==> #[trigger] c[8 * q + 2].len() % 2 == 0);
            assert(fills_rows(c[base + 3].len() / 2, 64));
            assert(fills_rows(c[base + 4].len() / 2, 64));
            assert(fills_rows(c[base + 5].len() / 2, 64));
            let l0 = TileLayer::from_bytes(value.chunks[base + 3].as_slice(), BATTLE_MAP_WIDTH);
            let l1 = TileLayer::from_bytes(value.chunks[base + 4].as_slice(), BATTLE_MAP_WIDTH);
            let l2 = TileLayer::from_bytes(value.chunks[base + 5].as_slice(), BATTLE_MAP_WIDTH);
            let map = BattleMap {
                unk0: copy_bytes(value.chunks[base].as_slice()),
                tileset: MaybeSerialized::Serialized(copy_bytes(value.chunks[base + 1].as_slice())),
                palette,
                tile_layers: [l0, l1, l2],
                unk6: copy_bytes(value.chunks[base + 6].as_slice()),
                unk7: copy_bytes(value.chunks[base + 7].as_slice()),
            };
            assert(palette_bits(map.palette) =~= Seq::new(
                c[base + 2].len() / 2,
                |i: int| palette_color_bits(c[base + 2], i),
            ));
            assert(battle_map_is(map, c, m as int));
            maps.push(map);
            m = m + 1;
        }
        let last = n - 9;
        assert forall|j: int| 0 <= j < 9 implies #[trigger] value.chunks@[last + j]@ == c[last + j] by {}
        let unk_last = [
            copy_bytes(value.chunks[last].as_slice()),
            copy_bytes(value.chunks[last + 1].as_slice()),
            copy_bytes(value.chunks[last + 2].as_slice()),
            copy_bytes(value.chunks[last + 3].as_slice()),
            copy_bytes(value.chunks[last + 4].as_slice()),
            copy_bytes(value.chunks[last + 5].as_slice()),
            copy_bytes(value.chunks[last + 6].as_slice()),
            copy_bytes(value.chunks[last + 7].as_slice()),
            copy_bytes(value.chunks[last + 8].as_slice()),
        ];
        assert(battle_map_file_check(c) is Ok);
        Ok(BattleMapFile { maps, unk_last, padding: value.footer })
    }

    /// The table of the maps' parts, eight per map with the tileset
    /// written if it was read, then the nine last parts.
    pub fn into_table(self) -> (r: Result<DataWithOffsetTable, BattleMapFileIntoTableError>)
        requires
            reached_tilesets_writable(self.maps@),
        ensures
            match battle_maps_chunks(self.maps@) {
                Err(e) => r == Err::<DataWithOffsetTable, BattleMapFileIntoTableError>(
                    BattleMapFileIntoTableError::BattleMapTilesetSerialization(e),
                ),
                Ok(cs) => r is Ok && r->Ok_0.footer@ == self.padding@ && chunk_views(
                    r->Ok_0.chunks@,
                ) == cs + self.unk_last@.map_values(|v: Vec<u8>| v@),
            },
    {
        let mut chunks: Vec<Vec<u8>> = Vec::new();
        let mut m: usize = 0;
        assert(self.maps@.take(0) =~= Seq::<BattleMap>::empty());
        assert(chunk_views(chunks@) =~= Seq::<Seq<u8>>::empty());
        while m < self.maps.len()
            invariant
                m <= self.maps@.len(),
                reached_tilesets_writable(self.maps@),
                battle_maps_chunks(self.maps@.take(m as int)) == Ok::<
                    Seq<Seq<u8>>,
                    BattleMapTilesetSerializationError,
                >(chunk_views(chunks@)),
            decreases self.maps@.len() - m,
        {
            let map = &self.maps[m];
            proof {
                assert(self.maps@.take(m + 1).drop_last() =~= self.maps@.take(m as int));
                assert(self.maps@.take(m + 1).last() == *map);
            }
            proof {
                reveal(reached_tilesets_writable);
                if map.tileset is Deserialized {
                    assert(battle_maps_chunks(self.maps@.take(m as int)) is Ok);
                    assert(tileset_writable(self.maps@[m as int].tileset->Deserialized_0));
                }
            }
            let tileset = match map_tileset_bytes(map) {
                Ok(b) => b,
                Err(e) => {
                    proof {
                        lemma_first_map_error(self.maps@, m as int, self.maps@.len() as int);
                        assert(self.maps@.take(self.maps@.len() as int) =~= self.maps@);
                    }
                    return Err(BattleMapFileIntoTableError::BattleMapTilesetSerialization(e));
                },
            };
            let ghost before = chunk_views(chunks@);
            chunks.push(copy_bytes(map.unk0.as_slice()));
            chunks.push(tileset);
            chunks.push(map.palette.to_bytes());
            chunks.push(map.tile_layers[0].to_bytes());
            chunks.push(map.tile_layers[1].to_bytes());
            chunks.push(map.tile_layers[2].to_bytes());
            chunks.push(copy_bytes(map.unk6.as_slice()));
            chunks.push(copy_bytes(map.unk7.as_slice()));
            proof {
                assert(chunk_views(chunks@) =~= before + battle_map_chunks(*map)->Ok_0);
            }
            m = m + 1;
        }
        assert(self.maps@.take(m as int) =~= self.maps@);
        let ghost body = chunk_views(chunks@);
        let mut j: usize = 0;
        while j < 9
            invariant
                j <= 9,
                chunk_views(chunks@) == body + self.unk_last@.take(j as int).map_values(
                    |v: Vec<u8>| v@,
                ),
            decreases 9 - j,
        {
            let piece = copy_bytes(self.unk_last[j].as_slice());
            let ghost before = chunks@;
            chunks.push(piece);
            proof {
                assert(piece@ == self.unk_last@[j as int]@);
                assert(self.unk_last@.take(j + 1) =~= self.unk_last@.take(j as int).push(
                    self.unk_last@[j as int],
                ));
                assert(chunk_views(chunks@) =~= chunk_views(before).push(piece@));
                assert(self.unk_last@.take(j + 1).map_values(|v: Vec<u8>| v@) =~= self.unk_last@.take(
                    j as int,
                ).map_values(|v: Vec<u8>| v@).push(piece@));
            }
            j = j + 1;
        }
        assert(self.unk_last@.take(9) =~= self.unk_last@);
        Ok(DataWithOffsetTable { chunks, footer: self.padding })
    }
}

/// Each tileset that writing the maps reaches can be written: those of the
/// maps before it were.
#[verifier::opaque]
pub open spec fn reached_tilesets_writable(maps: Seq<BattleMap>) -> bool {
    forall|m: int|
        0 <= m < maps.len() && (#[trigger] maps[m]).tileset is Deserialized && battle_maps_chunks(
            maps.take(m),
        ) is Ok ==> tileset_writable(maps[m].tileset->Deserialized_0)
}

/// The bytes a battle map's tileset is stored as.
fn map_tileset_bytes(map: &BattleMap) -> (r: Result<Vec<u8>, BattleMapTilesetSerializationError>)
    requires
        map.tileset is Deserialized ==> tileset_writable(map.tileset->Deserialized_0),
    ensures
        match map.tileset {
            MaybeSerialized::Serialized(d) => r is Ok && r->Ok_0@ == d@,
            MaybeSerialized::Deserialized(t) => match battle_tileset_bytes(t) {
                Ok(b) => r is Ok && r->Ok_0@ == b,
                Err(e) => r == Err::<Vec<u8>, BattleMapTilesetSerializationError>(e),
            },
        },
{
    match &map.tileset {
        MaybeSerialized::Serialized(d) => Ok(copy_bytes(d.as_slice())),
        MaybeSerialized::Deserialized(t) => BattleMap::serialize_tileset(t),
    }
}

proof fn lemma_first_map_error(maps: Seq<BattleMap>, m: int, k: int)
    requires
        0 <= m < k <= maps.len(),
        battle_maps_chunks(maps.take(m)) is Ok,
        battle_map_chunks(maps[m]) is Err,
    ensures
        battle_maps_chunks(maps.take(k)) == Err::<Seq<Seq<u8>>, BattleMapTilesetSerializationError>(
            battle_map_chunks(maps[m])->Err_0,
        ),
    decreases k - m,
{
    assert(maps.take(k).drop_last() =~= maps.take(k - 1));
    assert(maps.take(k).last() == maps[k - 1]);
    if k > m + 1 {
        lemma_first_map_error(maps, m, k - 1);
    }
}

/// The eight parts of one battle map, or the error of writing its tileset.
pub open spec fn battle_map_chunks(b: BattleMap) -> Result<Seq<Seq<u8>>, BattleMapTilesetSerializationError> {
    let tileset = match b.tileset {
        MaybeSerialized::Serialized(d) => Ok(d@),
        MaybeSerialized::Deserialized(t) => battle_tileset_bytes(t),
    };
    match tileset {
        Err(e) => Err(e),
        Ok(ts) => Ok(
            seq![
                b.unk0@,
                ts,
                palette_bytes(b.palette.0@),
                cells_bytes(tile_grid_cells(b.tile_layers@[0].0)),
                cells_bytes(tile_grid_cells(b.tile_layers@[1].0)),
                cells_bytes(tile_grid_cells(b.tile_layers@[2].0)),
                b.unk6@,
                b.unk7@,
            ],
        ),
    }
}

/// The parts of `maps` in order, or the error of the first map whose
/// tileset cannot be written.
pub open spec fn battle_maps_chunks(maps: Seq<BattleMap>) -> Result<Seq<Seq<u8>>, BattleMapTilesetSerializationError>
    decreases maps.len(),
{
    if maps.len() == 0 {
        Ok(seq![])
    } else {
        match battle_maps_chunks(maps.drop_last()) {
            Err(e) => Err(e),
            Ok(p) => match battle_map_chunks(maps.last()) {
                Err(e) => Err(e),
                Ok(c) => Ok(p + c),
            },
        }
    }
}


/// `n` little-endian 32-bit values from `pos` on.
pub open spec fn u32s_at(inp: Seq<u8>, pos: int, n: nat) -> Seq<u32> {
    Seq::new(n, |i: int| le_u32_at(inp, pos + 4 * i))
}

/// The offsets listed at `addr`: a length in bytes that counts its own
/// word, then the offsets.
pub open spec fn offset_list(inp: Seq<u8>, addr: int) -> Result<Seq<u32>, FieldMapsFromFilesError> {
    if addr + 4 > inp.len() {
        Err(FieldMapsFromFilesError::Io(StreamError::UnexpectedEof))
    } else if le_u32_at(inp, addr) / 4 == 0 {
        Err(FieldMapsFromFilesError::TryFromInt(TryFromIntError))
    } else if addr + 4 + 4 * ((le_u32_at(inp, addr) / 4) - 1) > inp.len() {
        Err(FieldMapsFromFilesError::Io(StreamError::UnexpectedEof))
    } else {
        Ok(u32s_at(inp, addr + 4, ((le_u32_at(inp, addr) / 4) - 1) as nat))
    }
}

pub open spec fn from_table_error(e: DataWithOffsetTableDeserializationError) -> FieldMapsFromFilesError {
    match e {
        DataWithOffsetTableDeserializationError::TryFromInt(x) => FieldMapsFromFilesError::TryFromInt(x),
        DataWithOffsetTableDeserializationError::Io(x) => FieldMapsFromFilesError::Io(x),
    }
}

/// Entries of the map table: five per map.
pub const FIELD_MAP_TABLE_ENTRIES: usize = 3405;

/// What the four files give: the map data chunks and what follows them,
/// the treasure chunks and what follows them, and the map table.
pub open spec fn field_map_files(f: Seq<u8>, t: Seq<u8>, o3: Seq<u8>, o4: Seq<u8>) -> Result<
    (Seq<Seq<u8>>, Seq<u8>, Seq<Seq<u8>>, Seq<u8>, Seq<u32>),
    FieldMapsFromFilesError,
> {
    match offset_list(o3, FMAPDATA_OFFSET_TABLE_LENGTH_ADDRESS as int) {
        Err(e) => Err(e),
        Ok(fo) => match offset_list(o4, TREASURE_INFO_OFFSET_TABLE_LENGTH_ADDRESS as int) {
            Err(e) => Err(e),
            Ok(to) => if FIELD_MAP_CHUNK_TABLE_ADDRESS + 4 * FIELD_MAP_TABLE_ENTRIES > o3.len() {
                Err(FieldMapsFromFilesError::Io(StreamError::UnexpectedEof))
            } else {
                match table_chunks(f, fo, 0, 0) {
                    Err(e) => Err(from_table_error(e)),
                    Ok((fc, fp)) => match table_chunks(t, to, 0, 0) {
                        Err(e) => Err(from_table_error(e)),
                        Ok((tc, tp)) => Ok(
                            (
                                fc,
                                f.subrange(fp as int, f.len() as int),
                                tc,
                                t.subrange(tp as int, t.len() as int),
                                u32s_at(
                                    o3,
                                    FIELD_MAP_CHUNK_TABLE_ADDRESS as int,
                                    FIELD_MAP_TABLE_ENTRIES as nat,
                                ),
                            ),
                        ),
                    },
                }
            },
        },
    }
}

/// An index, with `u32::MAX` for none.
pub open spec fn index_of(v: u32) -> Option<usize> {
    if v == u32::MAX {
        None
    } else {
        Some(v as usize)
    }
}

/// Map `i` is what entries `5 * i..5 * i + 5` of `table` give.
pub open spec fn field_map_is(m: FieldMap, table: Seq<u32>, i: int) -> bool {
    &&& m.tileset_indexes@ == seq![
        index_of(table[5 * i]),
        index_of(table[5 * i + 1]),
        index_of(table[5 * i + 2]),
    ]
    &&& m.map_chunk_index == table[5 * i + 3] as usize
    &&& m.treasure_data_index == index_of(table[5 * i + 4])
}

fn read_offset_list(inp: &[u8], addr: usize) -> (r: Result<Vec<u32>, FieldMapsFromFilesError>)
    ensures
        match offset_list(inp@, addr as int) {
            Ok(v) => r is Ok && r->Ok_0@ == v,
            Err(e) => r == Err::<Vec<u32>, FieldMapsFromFilesError>(e),
        },
{
    let mut reader = ByteReader { bytes: inp, pos: addr };
    let len = match reader.read_u32_le() {
        Ok(v) => v,
        Err(e) => return Err(FieldMapsFromFilesError::Io(e)),
    };
    if len / 4 == 0 {
        return Err(FieldMapsFromFilesError::TryFromInt(TryFromIntError));
    }
    let k = len / 4 - 1;
    read_u32s(&mut reader, k as usize)
}

/// `n` little-endian 32-bit values.
fn read_u32s(reader: &mut ByteReader, n: usize) -> (r: Result<Vec<u32>, FieldMapsFromFilesError>)
    ensures
        old(reader).pos + 4 * n <= old(reader).bytes@.len() || n == 0 ==> r is Ok && r->Ok_0@ == u32s_at(
            old(reader).bytes@,
            old(reader).pos as int,
            n as nat,
        ),
        n > 0 && old(reader).pos + 4 * n > old(reader).bytes@.len() ==> r == Err::<
            Vec<u32>,
            FieldMapsFromFilesError,
        >(FieldMapsFromFilesError::Io(StreamError::UnexpectedEof)),
{
    let ghost data = reader.bytes@;
    let ghost start = reader.pos as int;
    let mut out: Vec<u32> = Vec::new();
    let mut i: usize = 0;
    while i < n
        invariant
            reader.bytes@ == data,
            data == old(reader).bytes@,
            start == old(reader).pos,
            i <= n,
            reader.pos == start + 4 * i,
            i > 0 ==> start + 4 * i <= data.len(),
            out@ =~= u32s_at(data, start, i as nat),
        decreases n - i,
    {
        let v = match reader.read_u32_le() {
            Ok(v) => v,
            Err(e) => return Err(FieldMapsFromFilesError::Io(e)),
        };
        out.push(v);
        i = i + 1;
    }
    Ok(out)
}

fn table_error(e: DataWithOffsetTableDeserializationError) -> (r: FieldMapsFromFilesError)
    ensures
        r == from_table_error(e),
{
    match e {
        DataWithOffsetTableDeserializationError::TryFromInt(x) => FieldMapsFromFilesError::TryFromInt(x),
        DataWithOffsetTableDeserializationError::Io(x) => FieldMapsFromFilesError::Io(x),
    }
}

impl FieldMaps {
    /// Reads the field maps from the map data file, the treasure file and
    /// the two overlays that hold their offset tables and the map table.
    pub fn from_files(fmapdata: &[u8], treasure_info: &[u8], overlay3: &[u8], overlay4: &[u8]) -> (r: Result<
        Self,
        FieldMapsFromFilesError,
    >)
        ensures
            match field_map_files(fmapdata@, treasure_info@, overlay3@, overlay4@) {
                Err(e) => r == Err::<Self, FieldMapsFromFilesError>(e),
                Ok((fc, fp, tc, tp, table)) => r is Ok && {
                    let m = r->Ok_0;
                    &&& m.fmapdata_chunks@.len() == fc.len()
                    &&& forall|i: int|
                        0 <= i < fc.len() ==> (#[trigger] m.fmapdata_chunks@[i]) is Compressed
                            && m.fmapdata_chunks@[i]->Compressed_0@ == fc[i]
                    &&& m.fmapdata_padding@ == fp
                    &&& chunk_views(m.treasure_data@) == tc
                    &&& m.treasure_info_padding@ == tp
                    &&& m.maps@.len() == NUMBER_OF_FIELD_MAPS
                    &&& forall|i: int| 0 <= i < NUMBER_OF_FIELD_MAPS ==> field_map_is(#[trigger] m.maps@[i], table, i)
                },
            },
    {
        let fo = read_offset_list(overlay3, FMAPDATA_OFFSET_TABLE_LENGTH_ADDRESS as usize)?;
        let to = read_offset_list(overlay4, TREASURE_INFO_OFFSET_TABLE_LENGTH_ADDRESS as usize)?;
        let mut table_reader = ByteReader { bytes: overlay3, pos: FIELD_MAP_CHUNK_TABLE_ADDRESS as usize };
        let table = read_u32s(&mut table_reader, FIELD_MAP_TABLE_ENTRIES)?;
        let mut f_reader = ByteReader::new(fmapdata);
        let fc = match read_table_chunks(&mut f_reader, &fo) {
            Ok(c) => c,
            Err(e) => return Err(table_error(e)),
        };
        let fmapdata_padding = f_reader.read_to_end();
        let mut t_reader = ByteReader::new(treasure_info);
        let treasure_data = match read_table_chunks(&mut t_reader, &to) {
            Ok(c) => c,
            Err(e) => return Err(table_error(e)),
        };
        let treasure_info_padding = t_reader.read_to_end();
        let mut fmapdata_chunks: Vec<MaybeCompressedData> = Vec::new();
        let mut i: usize = 0;
        while i < fc.len()
            invariant
                i <= fc@.len(),
                fmapdata_chunks@.len() == i,
                forall|q: int|
                    0 <= q < i ==> (#[trigger] fmapdata_chunks@[q]) is Compressed
                        && fmapdata_chunks@[q]->Compressed_0@ == fc@[q]@,
            decreases fc@.len() - i,
        {
            fmapdata_chunks.push(MaybeCompressedData::Compressed(copy_bytes(fc[i].as_slice())));
            i = i + 1;
        }
        let mut maps: Vec<FieldMap> = Vec::new();
        let mut k: usize = 0;
        while k < NUMBER_OF_FIELD_MAPS
            invariant
                table@.len() == FIELD_MAP_TABLE_ENTRIES,
                k <= NUMBER_OF_FIELD_MAPS,
                maps@.len() == k,
                forall|q: int| 0 <= q < k ==> field_map_is(#[trigger] maps@[q], table@, q),
            decreases NUMBER_OF_FIELD_MAPS - k,
        {
            let base = 5 * k;
            let map = FieldMap {
                tileset_indexes: [
                    index_from(table[base]),
                    index_from(table[base + 1]),
                    index_from(table[base + 2]),
                ],
                map_chunk_index: table[base + 3] as usize,
                treasure_data_index: index_from(table[base + 4]),
            };
            assert(map.tileset_indexes@ =~= seq![
                index_of(table@[5 * k]),
                index_of(table@[5 * k + 1]),
                index_of(table@[5 * k + 2]),
            ]);
            maps.push(map);
            k = k + 1;
        }
        let r = FieldMaps {
            fmapdata_chunks,
            fmapdata_padding,
            treasure_data,
            treasure_info_padding,
            maps,
        };
        assert forall|q: int| 0 <= q < fc@.len() implies #[trigger] chunk_views(fc@)[q] == fc@[q]@ by {}
        Ok(r)
    }
}

fn index_from(v: u32) -> (r: Option<usize>)
    ensures
        r == index_of(v),
{
    match crate::utils::u32_or_max_to_option_try_into(v) {
        Ok(x) => x,
        Err(_) => None,
    }
}


/// `old` with `bytes` written at `pos`, as a seek and a write on a file
/// give: zeros fill any gap past the old end.
pub open spec fn patched(old: Seq<u8>, pos: int, bytes: Seq<u8>) -> Seq<u8> {
    Seq::new(
        (if pos + bytes.len() > old.len() {
            pos + bytes.len()
        } else {
            old.len() as int
        }) as nat,
        |i: int|
            if pos <= i < pos + bytes.len() {
                bytes[i - pos]
            } else if i < old.len() {
                old[i]
            } else {
                0u8
            },
    )
}

fn write_at(buf: &mut Vec<u8>, pos: usize, bytes: &Vec<u8>)
    requires
        pos + bytes@.len() <= usize::MAX,
    ensures
        final(buf)@ == patched(old(buf)@, pos as int, bytes@),
{
    let ghost target = patched(old(buf)@, pos as int, bytes@);
    while buf.len() < pos
        invariant
            target == patched(old(buf)@, pos as int, bytes@),
            old(buf)@.len() <= buf@.len() <= pos || buf@.len() == old(buf)@.len(),
            forall|i: int| 0 <= i < buf@.len() ==> #[trigger] buf@[i] == if i < old(buf)@.len() {
                old(buf)@[i]
            } else {
                0u8
            },
        decreases pos - buf@.len(),
    {
        buf.push(0u8);
    }
    let ghost mid = buf@;
    let mut i: usize = 0;
    while i < bytes.len()
        invariant
            pos + bytes@.len() <= usize::MAX,
            i <= bytes@.len(),
            buf@.len() >= pos + i,
            buf@.len() == if pos + i > mid.len() { pos + i } else { mid.len() as int },
            forall|t: int| 0 <= t < buf@.len() ==> #[trigger] buf@[t] == if pos <= t < pos + i {
                bytes@[t - pos]
            } else {
                mid[t]
            },
        decreases bytes@.len() - i,
    {
        if pos + i < buf.len() {
            buf.set(pos + i, bytes[i]);
        } else {
            buf.push(bytes[i]);
        }
        i = i + 1;
    }
    assert(buf@ =~= target);
}

/// `b` padded with zeros to a multiple of four bytes.
pub open spec fn padded4(b: Seq<u8>) -> Seq<u8> {
    b + Seq::new(padding_for(b.len(), 4), |i: int| 0u8)
}

/// The pieces one after another, each padded to four bytes.
pub open spec fn padded_concat(ps: Seq<Seq<u8>>) -> Seq<u8>
    decreases ps.len(),
{
    if ps.len() == 0 {
        seq![]
    } else {
        padded_concat(ps.drop_last()) + padded4(ps.last())
    }
}

/// The offset table for pieces: its length in bytes, which counts its own
/// word, then where each piece starts and where the last ends.
pub open spec fn offset_words(ps: Seq<Seq<u8>>) -> Seq<u32> {
    Seq::new(
        ps.len() + 2,
        |i: int|
            if i == 0 {
                ((ps.len() + 2) * 4) as u32
            } else {
                padded_concat(ps.take(i - 1)).len() as u32
            },
    )
}

/// The bytes a map data chunk is stored as: compressed.
pub open spec fn stored_chunk(c: MaybeCompressedData) -> Result<Seq<u8>, CompressionError> {
    match c {
        MaybeCompressedData::Compressed(d) => Ok(d@),
        MaybeCompressedData::Uncompressed(d) => if d@.len() < VARINT_LIMIT {
            Ok(compressed(d@))
        } else {
            Err(CompressionError::TryFromInt)
        },
    }
}

/// The stored map data chunks, or the first failure: a chunk that does not
/// compress, or offsets past 32 bits.
pub open spec fn stored_chunks(cs: Seq<MaybeCompressedData>) -> Result<Seq<Seq<u8>>, FieldMapsToFilesError>
    decreases cs.len(),
{
    if cs.len() == 0 {
        Ok(seq![])
    } else {
        match stored_chunks(cs.drop_last()) {
            Err(e) => Err(e),
            Ok(ps) => match stored_chunk(cs.last()) {
                Err(e) => Err(FieldMapsToFilesError::Compression(e)),
                Ok(b) => if padded_concat(ps).len() + padded4(b).len() > u32::MAX {
                    Err(FieldMapsToFilesError::TryFromInt(TryFromIntError))
                } else {
                    Ok(ps.push(b))
                },
            },
        }
    }
}

/// `u32::MAX` for none.
pub open spec fn index_word(v: Option<usize>) -> int {
    match v {
        Some(x) => x as int,
        None => u32::MAX as int,
    }
}

/// The five map table words of map `m`, as integers.
pub open spec fn map_word(maps: Seq<FieldMap>, i: int) -> int {
    let m = maps[i / 5];
    if i % 5 < 3 {
        index_word(m.tileset_indexes@[i % 5])
    } else if i % 5 == 3 {
        m.map_chunk_index as int
    } else {
        index_word(m.treasure_data_index)
    }
}

/// Every map table word fits in 32 bits.
pub open spec fn map_words_fit(maps: Seq<FieldMap>) -> bool {
    forall|i: int| 0 <= i < 5 * maps.len() ==> #[trigger] map_word(maps, i) <= u32::MAX
}

/// The map table.
pub open spec fn map_words(maps: Seq<FieldMap>) -> Seq<u32> {
    Seq::new(5 * maps.len(), |i: int| map_word(maps, i) as u32)
}

/// The padding that ends a data file: zeros to a multiple of 512 bytes, or
/// the padding kept from reading it.
pub open spec fn file_end(len: nat, align_files: bool, kept: Seq<u8>) -> Seq<u8> {
    if align_files {
        Seq::new(padding_for(len, 512), |i: int| 0u8)
    } else {
        kept
    }
}

/// The error, if any, of writing `fm`.
pub open spec fn field_maps_write_check(fm: FieldMaps) -> Result<(), FieldMapsToFilesError> {
    if fm.maps@.len() != NUMBER_OF_FIELD_MAPS {
        Err(FieldMapsToFilesError::IncorrectNumberOfMaps(fm.maps@.len() as usize))
    } else if (fm.fmapdata_chunks@.len() + 2) * 4 > u32::MAX {
        Err(FieldMapsToFilesError::TryFromInt(TryFromIntError))
    } else if stored_chunks(fm.fmapdata_chunks@) is Err {
        Err(stored_chunks(fm.fmapdata_chunks@)->Err_0)
    } else if (fm.treasure_data@.len() + 2) * 4 > u32::MAX || padded_concat(chunk_views(fm.treasure_data@)).len() > u32::MAX || !map_words_fit(fm.maps@) {
        Err(FieldMapsToFilesError::TryFromInt(TryFromIntError))
    } else {
        Ok(())
    }
}

proof fn lemma_padded_concat_prefix(ps: Seq<Seq<u8>>, j: int)
    requires
        0 <= j <= ps.len(),
    ensures
        padded_concat(ps.take(j)).len() <= padded_concat(ps).len(),
    decreases ps.len() - j,
{
    if j < ps.len() {
        lemma_padded_concat_prefix(ps, j + 1);
        assert(ps.take(j + 1).drop_last() =~= ps.take(j));
    } else {
        assert(ps.take(j) =~= ps);
    }
}

fn push_padded4(out: &mut Vec<u8>, b: &Vec<u8>)
    ensures
        final(out)@ == old(out)@ + padded4(b@),
{
    extend_bytes(out, b);
    let pad = necessary_padding_for(b.len(), STANDARD_DATA_WITH_OFFSET_TABLE_ALIGNMENT);
    let mut k: usize = 0;
    let ghost mid = out@;
    while k < pad
        invariant
            k <= pad,
            out@ == mid + Seq::new(k as nat, |i: int| 0u8),
        decreases pad - k,
    {
        out.push(0u8);
        k = k + 1;
        assert(out@ =~= mid + Seq::new(k as nat, |i: int| 0u8));
    }
    assert(out@ =~= old(out)@ + padded4(b@));
}

fn words_bytes(words: &Vec<u32>) -> (r: Vec<u8>)
    ensures
        r@ == u32s_bytes(words@),
{
    let mut out: Vec<u8> = Vec::new();
    let mut i: usize = 0;
    while i < words.len()
        invariant
            i <= words@.len(),
            out@ == u32s_bytes(words@.take(i as int)),
        decreases words@.len() - i,
    {
        let w = words[i];
        out.push((w & 0xff) as u8);
        out.push(((w >> 8u32) & 0xff) as u8);
        out.push(((w >> 16u32) & 0xff) as u8);
        out.push(((w >> 24u32) & 0xff) as u8);
        proof {
            assert(words@.take(i + 1).drop_last() =~= words@.take(i as int));
        }
        i = i + 1;
        assert(out@ =~= u32s_bytes(words@.take(i as int)));
    }
    assert(words@.take(i as int) =~= words@);
    out
}

fn word_of(v: Option<usize>) -> (r: Result<u32, FieldMapsToFilesError>)
    ensures
        index_word(v) <= u32::MAX ==> r == Ok::<u32, FieldMapsToFilesError>(index_word(v) as u32),
        index_word(v) > u32::MAX ==> r == Err::<u32, FieldMapsToFilesError>(
            FieldMapsToFilesError::TryFromInt(TryFromIntError),
        ),
{
    match crate::utils::option_to_u32_or_max_try_into(v) {
        Ok(w) => Ok(w),
        Err(e) => Err(FieldMapsToFilesError::TryFromInt(e)),
    }
}


proof fn lemma_stored_first_error(cs: Seq<MaybeCompressedData>, i: int, k: int)
    requires
        0 <= i < k <= cs.len(),
        stored_chunks(cs.take(i + 1)) is Err,
        i == 0 || stored_chunks(cs.take(i)) is Ok,
    ensures
        stored_chunks(cs.take(k)) == stored_chunks(cs.take(i + 1)),
    decreases k - i,
{
    if k > i + 1 {
        lemma_stored_first_error(cs, i, k - 1);
        assert(cs.take(k).drop_last() =~= cs.take(k - 1));
    }
}

/// Map data chunk bytes, padded, with their offset words.
fn store_map_chunks(cs: &Vec<MaybeCompressedData>) -> (r: Result<(Vec<u8>, Vec<u32>), FieldMapsToFilesError>)
    requires
        (cs@.len() + 2) * 4 <= u32::MAX,
    ensures
        match stored_chunks(cs@) {
            Err(e) => r == Err::<(Vec<u8>, Vec<u32>), FieldMapsToFilesError>(e),
            Ok(ps) => r is Ok && r->Ok_0.0@ == padded_concat(ps) && r->Ok_0.1@ == offset_words(ps),
        },
        r is Ok ==> r->Ok_0.0@.len() <= u32::MAX && r->Ok_0.1@.len() == cs@.len() + 2,
{
    let n = cs.len();
    let mut out: Vec<u8> = Vec::new();
    let mut words: Vec<u32> = Vec::new();
    words.push(((n + 2) * 4) as u32);
    words.push(0);
    let ghost mut ps: Seq<Seq<u8>> = seq![];
    let mut cum: u64 = 0;
    let mut i: usize = 0;
    assert(cs@.take(0) =~= Seq::<MaybeCompressedData>::empty());
    assert(ps.take(0) =~= ps);
    while i < n
        invariant
            n == cs@.len(),
            (n + 2) * 4 <= u32::MAX,
            i <= n,
            ps.len() == i,
            stored_chunks(cs@.take(i as int)) == Ok::<Seq<Seq<u8>>, FieldMapsToFilesError>(ps),
            out@ == padded_concat(ps),
            cum == out@.len(),
            cum <= u32::MAX,
            words@ == seq![((n + 2) * 4) as u32] + Seq::new(
                (i + 1) as nat,
                |k: int| padded_concat(ps.take(k)).len() as u32,
            ),
        decreases n - i,
    {
        proof {
            assert(cs@.take(i + 1).drop_last() =~= cs@.take(i as int));
            assert(cs@.take(i + 1).last() == cs@[i as int]);
        }
        let b = match cs[i].to_compressed() {
            Ok(b) => b,
            Err(e) => {
                proof {
                    lemma_stored_first_error(cs@, i as int, n as int);
                    assert(cs@.take(n as int) =~= cs@);
                }
                return Err(FieldMapsToFilesError::Compression(e));
            },
        };
        let pad = necessary_padding_for(b.len(), STANDARD_DATA_WITH_OFFSET_TABLE_ALIGNMENT);
        if b.len() as u64 > u32::MAX as u64 || b.len() as u64 + pad as u64 > u32::MAX as u64 - cum {
            proof {
                lemma_stored_first_error(cs@, i as int, n as int);
                assert(cs@.take(n as int) =~= cs@);
            }
            return Err(FieldMapsToFilesError::TryFromInt(TryFromIntError));
        }
        let ghost before = ps;
        push_padded4(&mut out, &b);
        cum = cum + b.len() as u64 + pad as u64;
        proof {
            ps = ps.push(b@);
            assert(ps.drop_last() =~= before);
            assert forall|k: int| 0 <= k <= i implies #[trigger] ps.take(k) == before.take(k) by {
                assert(ps.take(k) =~= before.take(k));
            }
            assert(ps.take(i + 1) =~= ps);
        }
        words.push(cum as u32);
        i = i + 1;
        assert(words@ =~= seq![((n + 2) * 4) as u32] + Seq::new(
            (i + 1) as nat,
            |k: int| padded_concat(ps.take(k)).len() as u32,
        ));
    }
    assert(cs@.take(n as int) =~= cs@);
    assert(words@ =~= offset_words(ps));
    Ok((out, words))
}

/// Treasure chunk bytes, padded, with their offset words; `None` when an
/// offset passes 32 bits.
fn store_treasure_chunks(ts: &Vec<Vec<u8>>) -> (r: Option<(Vec<u8>, Vec<u32>)>)
    requires
        (ts@.len() + 2) * 4 <= u32::MAX,
    ensures
        padded_concat(chunk_views(ts@)).len() > u32::MAX ==> r is None,
        padded_concat(chunk_views(ts@)).len() <= u32::MAX ==> r is Some && r->Some_0.0@
            == padded_concat(chunk_views(ts@)) && r->Some_0.1@ == offset_words(chunk_views(ts@)),
{
    let ghost vs = chunk_views(ts@);
    let n = ts.len();
    let mut out: Vec<u8> = Vec::new();
    let mut words: Vec<u32> = Vec::new();
    words.push(((n + 2) * 4) as u32);
    words.push(0);
    let mut cum: u64 = 0;
    let mut i: usize = 0;
    assert(vs.take(0) =~= Seq::<Seq<u8>>::empty());
    while i < n
        invariant
            n == ts@.len(),
            vs == chunk_views(ts@),
            (n + 2) * 4 <= u32::MAX,
            i <= n,
            out@ == padded_concat(vs.take(i as int)),
            cum == out@.len(),
            cum <= u32::MAX,
            words@ == seq![((n + 2) * 4) as u32] + Seq::new(
                (i + 1) as nat,
                |k: int| padded_concat(vs.take(k)).len() as u32,
            ),
        decreases n - i,
    {
        proof {
            assert(vs.take(i + 1).drop_last() =~= vs.take(i as int));
            assert(vs.take(i + 1).last() == ts@[i as int]@);
        }
        let b = &ts[i];
        let pad = necessary_padding_for(b.len(), STANDARD_DATA_WITH_OFFSET_TABLE_ALIGNMENT);
        if b.len() as u64 > u32::MAX as u64 || b.len() as u64 + pad as u64 > u32::MAX as u64 - cum {
            proof {
                lemma_padded_concat_prefix(vs, i + 1);
            }
            return None;
        }
        push_padded4(&mut out, b);
        cum = cum + b.len() as u64 + pad as u64;
        words.push(cum as u32);
        i = i + 1;
        assert(words@ =~= seq![((n + 2) * 4) as u32] + Seq::new(
            (i + 1) as nat,
            |k: int| padded_concat(vs.take(k)).len() as u32,
        ));
    }
    assert(vs.take(n as int) =~= vs);
    assert(words@ =~= offset_words(vs));
    Some((out, words))
}

/// The map table words; `None` when one passes 32 bits.
fn store_map_table(maps: &Vec<FieldMap>) -> (r: Option<Vec<u32>>)
    requires
        maps@.len() == NUMBER_OF_FIELD_MAPS,
    ensures
        !map_words_fit(maps@) ==> r is None,
        map_words_fit(maps@) ==> r is Some && r->Some_0@ == map_words(maps@),
{
    let mut words: Vec<u32> = Vec::new();
    let mut k: usize = 0;
    while k < NUMBER_OF_FIELD_MAPS
        invariant
            maps@.len() == NUMBER_OF_FIELD_MAPS,
            k <= NUMBER_OF_FIELD_MAPS,
            words@.len() == 5 * k,
            forall|i: int| 0 <= i < 5 * k ==> #[trigger] map_word(maps@, i) <= u32::MAX,
            forall|i: int| 0 <= i < 5 * k ==> #[trigger] words@[i] == map_word(maps@, i) as u32,
        decreases NUMBER_OF_FIELD_MAPS - k,
    {
        let m = &maps[k];
        let ghost b = 5 * k as int;
        assert(map_word(maps@, b) == index_word(m.tileset_indexes@[0]));
        assert(map_word(maps@, b + 1) == index_word(m.tileset_indexes@[1]));
        assert(map_word(maps@, b + 2) == index_word(m.tileset_indexes@[2]));
        assert(map_word(maps@, b + 3) == m.map_chunk_index as int);
        assert(map_word(maps@, b + 4) == index_word(m.treasure_data_index));
        let w0 = match word_of(m.tileset_indexes[0]) {
            Ok(w) => w,
            Err(_) => return None,
        };
        let w1 = match word_of(m.tileset_indexes[1]) {
            Ok(w) => w,
            Err(_) => return None,
        };
        let w2 = match word_of(m.tileset_indexes[2]) {
            Ok(w) => w,
            Err(_) => return None,
        };
        if m.map_chunk_index > u32::MAX as usize {
            return None;
        }
        let w3 = m.map_chunk_index as u32;
        let w4 = match word_of(m.treasure_data_index) {
            Ok(w) => w,
            Err(_) => return None,
        };
        words.push(w0);
        words.push(w1);
        words.push(w2);
        words.push(w3);
        words.push(w4);
        k = k + 1;
    }
    assert(words@ =~= map_words(maps@));
    Some(words)
}

/// Appends the end of a data file of `len` bytes.
fn push_file_end(out: &mut Vec<u8>, len: u64, align_files: bool, kept: &Vec<u8>)
    requires
        len <= u32::MAX,
    ensures
        final(out)@ == old(out)@ + file_end(len as nat, align_files, kept@),
{
    if align_files {
        let pad = necessary_padding_for(len as usize, STANDARD_FILE_ALIGNMENT);
        let mut k: usize = 0;
        while k < pad
            invariant
                k <= pad,
                out@ == old(out)@ + Seq::new(k as nat, |i: int| 0u8),
            decreases pad - k,
        {
            out.push(0u8);
            k = k + 1;
            assert(out@ =~= old(out)@ + Seq::new(k as nat, |i: int| 0u8));
        }
        assert(out@ =~= old(out)@ + file_end(len as nat, align_files, kept@));
    } else {
        extend_bytes(out, kept);
    }
}

impl FieldMaps {
    /// Writes the map data file, the treasure file, and the offset tables
    /// and map table into the two overlays at their places. Nothing is
    /// written when there are not exactly 681 maps, when a chunk does not
    /// compress, or when an offset or index passes 32 bits.
    pub fn to_files(
        &self,
        fmapdata: &mut Vec<u8>,
        treasure_info: &mut Vec<u8>,
        overlay3: &mut Vec<u8>,
        overlay4: &mut Vec<u8>,
        align_files: bool,
    ) -> (r: Result<(), FieldMapsToFilesError>)
        requires
            FMAPDATA_OFFSET_TABLE_LENGTH_ADDRESS + 4 * (self.fmapdata_chunks@.len() + 2)
                <= usize::MAX,
            TREASURE_INFO_OFFSET_TABLE_LENGTH_ADDRESS + 4 * (self.treasure_data@.len() + 2)
                <= usize::MAX,
            FIELD_MAP_CHUNK_TABLE_ADDRESS + 4 * FIELD_MAP_TABLE_ENTRIES <= usize::MAX,
        ensures
            match field_maps_write_check(*self) {
                Err(e) => r == Err::<(), FieldMapsToFilesError>(e) && final(fmapdata)@ == old(
                    fmapdata,
                )@ && final(treasure_info)@ == old(treasure_info)@ && final(overlay3)@ == old(
                    overlay3,
                )@ && final(overlay4)@ == old(overlay4)@,
                Ok(_) => r is Ok && {
                    let ps = stored_chunks(self.fmapdata_chunks@)->Ok_0;
                    let ts = chunk_views(self.treasure_data@);
                    &&& final(fmapdata)@ == old(fmapdata)@ + padded_concat(ps) + file_end(
                        padded_concat(ps).len(),
                        align_files,
                        self.fmapdata_padding@,
                    )
                    &&& final(treasure_info)@ == old(treasure_info)@ + padded_concat(ts) + file_end(
                        padded_concat(ts).len(),
                        align_files,
                        self.treasure_info_padding@,
                    )
                    &&& final(overlay3)@ == patched(
                        patched(
                            old(overlay3)@,
                            FMAPDATA_OFFSET_TABLE_LENGTH_ADDRESS as int,
                            u32s_bytes(offset_words(ps)),
                        ),
                        FIELD_MAP_CHUNK_TABLE_ADDRESS as int,
                        u32s_bytes(map_words(self.maps@)),
                    )
                    &&& final(overlay4)@ == patched(
                        old(overlay4)@,
                        TREASURE_INFO_OFFSET_TABLE_LENGTH_ADDRESS as int,
                        u32s_bytes(offset_words(ts)),
                    )
                },
            },
    {
        let nm = self.maps.len();
        if nm != NUMBER_OF_FIELD_MAPS {
            return Err(FieldMapsToFilesError::IncorrectNumberOfMaps(nm));
        }
        if self.fmapdata_chunks.len() > 0x3fff_fffd {
            return Err(FieldMapsToFilesError::TryFromInt(TryFromIntError));
        }
        let (fout, fwords) = store_map_chunks(&self.fmapdata_chunks)?;
        if self.treasure_data.len() > 0x3fff_fffd {
            return Err(FieldMapsToFilesError::TryFromInt(TryFromIntError));
        }
        let (tout, twords) = match store_treasure_chunks(&self.treasure_data) {
            Some(x) => x,
            None => return Err(FieldMapsToFilesError::TryFromInt(TryFromIntError)),
        };
        let mwords = match store_map_table(&self.maps) {
            Some(w) => w,
            None => return Err(FieldMapsToFilesError::TryFromInt(TryFromIntError)),
        };
        extend_bytes(fmapdata, &fout);
        push_file_end(fmapdata, fout.len() as u64, align_files, &self.fmapdata_padding);
        extend_bytes(treasure_info, &tout);
        push_file_end(treasure_info, tout.len() as u64, align_files, &self.treasure_info_padding);
        let fbytes = words_bytes(&fwords);
        let tbytes = words_bytes(&twords);
        let mbytes = words_bytes(&mwords);
        proof {
            lemma_u32s_bytes_len(fwords@);
            lemma_u32s_bytes_len(twords@);
            lemma_u32s_bytes_len(mwords@);
        }
        write_at(overlay3, FMAPDATA_OFFSET_TABLE_LENGTH_ADDRESS as usize, &fbytes);
        write_at(overlay3, FIELD_MAP_CHUNK_TABLE_ADDRESS as usize, &mbytes);
        write_at(overlay4, TREASURE_INFO_OFFSET_TABLE_LENGTH_ADDRESS as usize, &tbytes);
        Ok(())
    }
}

proof fn lemma_u32s_bytes_len(v: Seq<u32>)
    ensures
        u32s_bytes(v).len() == 4 * v.len(),
    decreases v.len(),
{
    if v.len() > 0 {
        lemma_u32s_bytes_len(v.drop_last());
    }
}

} // verus!
