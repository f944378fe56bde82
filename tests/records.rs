use mnllib::consts::{fs_std_data_path, fs_std_overlay_path};
use mnllib::map::{
    FieldMapProperties, PixelFormat, Tile, Tileset, TilesetTile, TilesetTileDeserializationError,
    TilesetTileFromColorsError, TilesetTileSerializationError, TilesetsProperties,
};
use mnllib::misc::{
    filesystem_standard_data_path, filesystem_standard_overlay_path, ByteReader,
    DataWithOffsetTable, DataWithOffsetTableDeserializationError, MaybeCompressedData, Palette,
    PaletteDeserializationError, Rgb555, Rgb888, StreamError,
};
use mnllib::utils::{
    empty_if_none, necessary_padding_for, none_if_empty, option_to_u32_or_max,
    option_to_u32_or_max_try_into, u32_or_max_to_option, u32_or_max_to_option_try_into,
    AlignToElements, TryFromIntError,
};

#[test]
fn paths() {
    assert_eq!(fs_std_data_path("FMap/FMapData.dat"), "data/data/FMap/FMapData.dat");
    assert_eq!(fs_std_overlay_path(3), "data/overlay.dec/overlay_0003.dec.bin");
    assert_eq!(fs_std_overlay_path(12345), "data/overlay.dec/overlay_12345.dec.bin");
    assert_eq!(filesystem_standard_data_path("x.bin"), "data/data/x.bin");
    assert_eq!(filesystem_standard_overlay_path(42), "data/overlay.dec/overlay_0042.dec.bin");
}

#[test]
fn padding_and_alignment() {
    assert_eq!(necessary_padding_for(0, 4), 0);
    assert_eq!(necessary_padding_for(5, 4), 3);
    assert_eq!(necessary_padding_for(512, 512), 0);
    assert_eq!(necessary_padding_for(513, 512), 511);
    let mut v = vec![1u8, 2, 3, 4, 5];
    v.align_to_elements(4);
    assert_eq!(v, vec![1, 2, 3, 4, 5, 0, 0, 0]);
    v.align_to_elements(4);
    assert_eq!(v.len(), 8);
}

#[test]
fn optional_values() {
    assert_eq!(none_if_empty(Vec::<u8>::new()), None);
    assert_eq!(none_if_empty(vec![1u8]), Some(vec![1u8]));
    assert_eq!(empty_if_none::<u8>(None), Vec::<u8>::new());
    assert_eq!(empty_if_none(Some(vec![7u8])), vec![7u8]);
    assert_eq!(u32_or_max_to_option(u32::MAX), None);
    assert_eq!(u32_or_max_to_option(5), Some(5));
    assert_eq!(u32_or_max_to_option_try_into(u32::MAX), Ok(None));
    assert_eq!(u32_or_max_to_option_try_into(9), Ok(Some(9usize)));
    assert_eq!(option_to_u32_or_max(None), u32::MAX);
    assert_eq!(option_to_u32_or_max(Some(3)), 3);
    assert_eq!(option_to_u32_or_max_try_into(None), Ok(u32::MAX));
    assert_eq!(option_to_u32_or_max_try_into(Some(8)), Ok(8));
    if usize::BITS > 32 {
        assert_eq!(
            option_to_u32_or_max_try_into(Some(u32::MAX as usize + 1)),
            Err(TryFromIntError)
        );
    }
}

#[test]
fn colors() {
    let c = Rgb555::new(1, 2, 3);
    assert_eq!(c.into_bits(), 1 | (2 << 5) | (3 << 10));
    assert_eq!((c.r(), c.g(), c.b()), (1, 2, 3));
    assert_eq!(Rgb555::new_checked(31, 31, 31).map(|c| c.into_bits()), Ok(0x7FFF));
    assert!(Rgb555::new_checked(32, 0, 0).is_err());
    let c = Rgb555::from_rgb888(Rgb888 { r: 0xFF, g: 0x80, b: 0x07 });
    assert_eq!((c.r(), c.g(), c.b()), (31, 16, 0));
    assert_eq!(c.to_rgb888(), Rgb888 { r: 0xF8, g: 0x80, b: 0 });
}

#[test]
fn palette_bytes_round_trip() {
    let data = [0x1Fu8, 0x00, 0xE0, 0x03, 0x00, 0x7C];
    let p = Palette::from_bytes(&data).unwrap();
    assert_eq!(p.0.len(), 3);
    assert_eq!(p.0[0].r(), 31);
    assert_eq!(p.0[1].g(), 31);
    assert_eq!(p.0[2].b(), 31);
    assert_eq!(p.to_bytes(), data.to_vec());
    assert_eq!(
        Palette::from_bytes(&[1, 2, 3]),
        Err(PaletteDeserializationError::ExtraBytesInInput)
    );
    let first = p.color_as_rgba8888(0);
    assert_eq!((first.r, first.a), (0xF8, 0));
    assert_eq!(p.color_as_rgba8888(1).a, 0xFF);
}

#[test]
fn maybe_compressed_data() {
    let plain = vec![4u8; 40];
    let mut d = MaybeCompressedData::Uncompressed(plain.clone());
    let packed = d.to_compressed().unwrap();
    d.make_compressed().unwrap();
    assert_eq!(d, MaybeCompressedData::Compressed(packed.clone()));
    assert_eq!(d.to_uncompressed(true).unwrap(), plain);
    d.make_uncompressed(true).unwrap();
    assert_eq!(d, MaybeCompressedData::Uncompressed(plain));
}

#[test]
fn offset_table_round_trip() {
    let mut bytes = Vec::new();
    for v in [12u32, 15, 17] {
        bytes.extend_from_slice(&v.to_le_bytes());
    }
    bytes.extend_from_slice(&[1, 2, 3, 4, 5, 9, 9]);
    let mut reader = ByteReader::new(&bytes);
    let mut table = DataWithOffsetTable::from_reader(&mut reader).unwrap();
    assert_eq!(table.chunks, vec![vec![1, 2, 3], vec![4, 5]]);
    assert_eq!(table.footer, vec![9, 9]);
    let mut out = Vec::new();
    table.to_writer(&mut out, None, true).unwrap();
    assert_eq!(out, bytes);

    let mut aligned = Vec::new();
    table.to_writer(&mut aligned, Some(4), false).unwrap();
    assert_eq!(table.chunks, vec![vec![1, 2, 3, 0], vec![4, 5, 0, 0]]);
    assert_eq!(&aligned[..12], &[12, 0, 0, 0, 16, 0, 0, 0, 20, 0, 0, 0]);
    assert_eq!(aligned.len(), 20);
}

#[test]
fn offset_table_errors() {
    let short = [12u8, 0, 0];
    assert_eq!(
        DataWithOffsetTable::from_reader(&mut ByteReader::new(&short)),
        Err(DataWithOffsetTableDeserializationError::Io(StreamError::UnexpectedEof))
    );
    let mut bytes = Vec::new();
    for v in [12u32, 15, 14] {
        bytes.extend_from_slice(&v.to_le_bytes());
    }
    bytes.extend_from_slice(&[1, 2, 3]);
    assert_eq!(
        DataWithOffsetTable::from_reader(&mut ByteReader::new(&bytes)),
        Err(DataWithOffsetTableDeserializationError::TryFromInt(TryFromIntError))
    );
}

#[test]
fn pixel_formats() {
    assert_eq!(PixelFormat::from_bits(0), PixelFormat::FourBitsPerPixel);
    assert_eq!(PixelFormat::from_bits(1), PixelFormat::EightBitsPerPixel);
    let three = PixelFormat::array3_from_bits(0b101);
    assert_eq!(
        three,
        [PixelFormat::EightBitsPerPixel, PixelFormat::FourBitsPerPixel, PixelFormat::EightBitsPerPixel]
    );
    assert_eq!(PixelFormat::array3_into_bits(three), 0b101);
    let props = TilesetsProperties::from_bits(0b1111_1010);
    assert_eq!(props.unk(), 0b11111);
    assert_eq!(props.tileset_pixel_formats()[1], PixelFormat::EightBitsPerPixel);
}

#[test]
fn tile_bits() {
    let t = Tile::from_bits(0b1010_1100_0000_0101);
    assert_eq!(t.tileset_tile_id(), 5);
    assert!(t.flipped_horizontally());
    assert!(t.flipped_vertically());
    assert_eq!(t.palette_offset(), 0b1010);
}

#[test]
fn tileset_tiles_in_both_formats() {
    let data: Vec<u8> = (0..32u8).map(|i| i.wrapping_mul(37)).collect();
    let tile = TilesetTile::from_bytes(&data, PixelFormat::FourBitsPerPixel).unwrap();
    assert_eq!(tile.0[0], data[0] & 0x0F);
    assert_eq!(tile.0[1], data[0] >> 4);
    assert_eq!(tile.to_bytes(PixelFormat::FourBitsPerPixel).unwrap(), data);
    assert_eq!(
        TilesetTile::from_bytes(&data, PixelFormat::EightBitsPerPixel),
        Err(TilesetTileDeserializationError::InvalidInputLength)
    );
    let wide = TilesetTile([200u8; 64]);
    assert_eq!(wide.to_bytes(PixelFormat::EightBitsPerPixel).unwrap(), vec![200u8; 64]);
    assert_eq!(
        wide.to_bytes(PixelFormat::FourBitsPerPixel),
        Err(TilesetTileSerializationError::PixelValueTooLarge {
            pixel_format: PixelFormat::FourBitsPerPixel
        })
    );
}

#[test]
fn tilesets() {
    let data: Vec<u8> = (0..96u8).collect();
    let set = Tileset::from_bytes(&data, PixelFormat::FourBitsPerPixel).unwrap();
    assert_eq!(set.0.len(), 3);
    assert_eq!(set.to_bytes(PixelFormat::FourBitsPerPixel).unwrap(), data);
    assert_eq!(
        Tileset::from_bytes(&data[..40], PixelFormat::FourBitsPerPixel),
        Err(TilesetTileDeserializationError::InvalidInputLength)
    );
    assert_eq!(Tileset::from_bytes(&[], PixelFormat::EightBitsPerPixel).unwrap().0.len(), 0);
}

#[test]
fn tile_colors_through_palette() {
    let palette = Palette(vec![
        Rgb555::new(0, 0, 0),
        Rgb555::new(1, 1, 1),
        Rgb555::new(2, 2, 2),
        Rgb555::new(1, 1, 1),
    ]);
    let mut pixels = [0u8; 64];
    pixels[1] = 2;
    pixels[2] = 1;
    let tile = TilesetTile(pixels);
    let colors = tile.as_bgr555(&palette);
    assert_eq!(colors[1], Rgb555::new(2, 2, 2));
    assert_eq!(tile.as_bgr555_with_offset(&palette, 1)[0], Rgb555::new(1, 1, 1));
    let mut wanted = [None; 64];
    wanted[1] = Some(Rgb555::new(2, 2, 2));
    wanted[2] = Some(Rgb555::new(1, 1, 1));
    assert_eq!(TilesetTile::from_bgr555_or_transparent(&wanted, &palette).unwrap(), tile);
    wanted[3] = Some(Rgb555::new(9, 9, 9));
    assert_eq!(
        TilesetTile::from_bgr555_or_transparent(&wanted, &palette),
        Err(TilesetTileFromColorsError::ColorNotInPalette)
    );
}

#[test]
fn field_map_properties_round_trip() {
    let bytes = [0x40u8, 0x00, 0x20, 0x00, 7, 0b101, 1, 2, 3, 4, 5, 6, 99];
    let mut reader = ByteReader::new(&bytes);
    let props = FieldMapProperties::from_reader(&mut reader).unwrap();
    assert_eq!((props.width, props.height, props.unk_0x04), (64, 32, 7));
    assert_eq!(props.unk_0x06, [1, 2, 3, 4, 5, 6]);
    assert_eq!(reader.pos, 12);
    let mut out = Vec::new();
    props.to_writer(&mut out);
    assert_eq!(out, bytes[..12].to_vec());
    assert_eq!(
        FieldMapProperties::from_reader(&mut ByteReader::new(&bytes[..11])),
        Err(StreamError::UnexpectedEof)
    );
}
