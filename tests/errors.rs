use mnllib::compression::CompressionError;
use mnllib::map::{
    BattleMap, BattleMapFile, BattleMapFileIntoTableError, BattleMapTilesetSerializationError,
    FieldMapChunk, FieldMapChunkFromTableError, FieldMaps, FieldMapsFromFilesError,
    FieldMapsToFilesError, PixelFormat, TileLayer, Tileset, TilesetTile,
    TilesetTileFromColorsError, TilesetTileSerializationError,
};
use mnllib::misc::{
    DataWithOffsetTable, DataWithOffsetTableDeserializationError, MaybeCompressedData,
    MaybeSerialized, Palette, Rgb555, StreamError,
};
use mnllib::utils::TryFromIntError;

#[test]
fn color_index_past_a_byte() {
    let mut colors = vec![Rgb555::new(0, 0, 0); 300];
    colors[299] = Rgb555::new(5, 5, 5);
    let palette = Palette(colors);
    let mut wanted = [None; 64];
    wanted[0] = Some(Rgb555::new(5, 5, 5));
    assert_eq!(
        TilesetTile::from_bgr555_or_transparent(&wanted, &palette),
        Err(TilesetTileFromColorsError::TryFromInt)
    );
}

#[test]
fn nested_table_error_in_map_chunk() {
    let mut chunks = vec![Vec::new(); 17];
    chunks[6] = vec![0u8; 12];
    chunks[10] = vec![8, 0, 0, 0];
    let table = DataWithOffsetTable { chunks, footer: Vec::new() };
    assert_eq!(
        FieldMapChunk::from_table(table),
        Err(FieldMapChunkFromTableError::DataWithOffsetTableDeserialization(
            DataWithOffsetTableDeserializationError::Io(StreamError::UnexpectedEof)
        ))
    );
}

fn blank_overlays() -> (Vec<u8>, Vec<u8>) {
    let mut o3 = vec![0u8; 0x19FD0 + 4 * 3405];
    o3[0x11310] = 8;
    let mut o4 = vec![0u8; 0x4AA30 + 8];
    o4[0x4AA30] = 8;
    (o3, o4)
}

#[test]
fn offset_table_length_below_one_word() {
    let (mut o3, o4) = blank_overlays();
    o3[0x11310] = 3;
    assert_eq!(
        FieldMaps::from_files(&[], &[], &o3, &o4),
        Err(FieldMapsFromFilesError::TryFromInt(TryFromIntError))
    );
}

#[test]
fn field_maps_write_errors() {
    let (o3, o4) = blank_overlays();
    let mut maps = FieldMaps::from_files(&[], &[], &o3, &o4).unwrap();
    maps.maps[3].map_chunk_index = usize::MAX;
    let (mut f, mut t, mut n3, mut n4) = (Vec::new(), Vec::new(), Vec::new(), Vec::new());
    if usize::BITS > 32 {
        assert_eq!(
            maps.to_files(&mut f, &mut t, &mut n3, &mut n4, false),
            Err(FieldMapsToFilesError::TryFromInt(TryFromIntError))
        );
        assert!(n3.is_empty());
    }
    maps.maps[3].map_chunk_index = 0;
    maps.fmapdata_chunks = vec![MaybeCompressedData::Uncompressed(vec![0u8; 0x400_0000])];
    assert_eq!(
        maps.to_files(&mut f, &mut t, &mut n3, &mut n4, false),
        Err(FieldMapsToFilesError::Compression(CompressionError::TryFromInt))
    );
}

#[test]
fn battle_tileset_with_wide_pixels() {
    let tileset = Tileset(vec![TilesetTile([16u8; 64])]);
    let err = BattleMapTilesetSerializationError::TilesetTileSerialization(
        TilesetTileSerializationError::PixelValueTooLarge {
            pixel_format: PixelFormat::FourBitsPerPixel,
        },
    );
    assert_eq!(BattleMap::serialize_tileset(&tileset), Err(err));
    let map = BattleMap {
        unk0: Vec::new(),
        tileset: MaybeSerialized::Deserialized(tileset),
        palette: Palette(Vec::new()),
        tile_layers: [
            TileLayer::from_bytes(&[], 64),
            TileLayer::from_bytes(&[], 64),
            TileLayer::from_bytes(&[], 64),
        ],
        unk6: Vec::new(),
        unk7: Vec::new(),
    };
    let file = BattleMapFile {
        maps: vec![map],
        unk_last: Default::default(),
        padding: Vec::new(),
    };
    assert_eq!(
        file.into_table(),
        Err(BattleMapFileIntoTableError::BattleMapTilesetSerialization(err))
    );
}
