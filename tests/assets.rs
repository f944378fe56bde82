use mnllib::compression::{compress, decompress, DecompressionError};
use mnllib::map::{
    BattleMap, BattleMapFile, BattleMapFileFromTableError, BattleMapTilesetDeserializationError,
    FieldMapChunk, FieldMapChunkFromTableError, FieldMaps, FieldMapsToFilesError, PixelFormat,
    TileLayer, Tileset, TilesetTile,
};
use mnllib::misc::{
    DataWithOffsetTable, MaybeCompressedData, MaybeSerialized, Palette, PaletteDeserializationError,
    Rgb555, Rgba8888, StreamError,
};

#[test]
fn tile_layer_round_trip() {
    let data: Vec<u8> = (0..16u8).collect();
    let layer = TileLayer::from_bytes(&data, 4);
    assert_eq!(layer.0.cols(), 4);
    assert_eq!(layer.0.rows(), 2);
    assert_eq!(layer.0[(0, 1)].into_bits(), 0x0302);
    assert_eq!(layer.to_bytes(), data);
    let empty = TileLayer::from_bytes(&[], 64);
    assert_eq!(empty.to_bytes(), Vec::<u8>::new());
}

fn properties_bytes(width: u16) -> Vec<u8> {
    let mut v = width.to_le_bytes().to_vec();
    v.extend_from_slice(&[2, 0, 9, 0b001, 1, 2, 3, 4, 5, 6]);
    v
}

fn field_map_table() -> DataWithOffsetTable {
    let mut chunks = vec![
        (0..8u8).collect::<Vec<u8>>(),
        vec![],
        vec![],
        vec![0x1F, 0x00, 0xE0, 0x03],
        vec![],
        vec![],
        properties_bytes(2),
        vec![7],
        vec![8, 8],
        vec![],
        vec![8, 0, 0, 0, 9, 0, 0, 0, 7],
    ];
    for i in 11..17u8 {
        chunks.push(vec![i; i as usize % 3]);
    }
    DataWithOffsetTable { chunks, footer: vec![0xEE] }
}

#[test]
fn field_map_chunk_round_trip() {
    let table = field_map_table();
    let chunk = FieldMapChunk::from_table(table.clone()).unwrap();
    assert!(chunk.tile_layers[0].is_some());
    assert!(chunk.tile_layers[1].is_none());
    assert_eq!(chunk.palettes[0].as_ref().unwrap().0.len(), 2);
    assert_eq!(chunk.properties.width, 2);
    assert!(chunk.unk9.is_none());
    let nested = chunk.unk10.as_ref().unwrap();
    assert_eq!(nested.chunks, vec![vec![7]]);
    assert_eq!(chunk.padding, vec![0xEE]);
    let back = chunk.into_table().unwrap();
    assert_eq!(back, table);
}

#[test]
fn field_map_chunk_errors() {
    let mut table = field_map_table();
    table.chunks.pop();
    assert_eq!(
        FieldMapChunk::from_table(table),
        Err(FieldMapChunkFromTableError::InvalidNumberOfChunks(16))
    );
    let mut table = field_map_table();
    table.chunks[6].truncate(11);
    assert_eq!(
        FieldMapChunk::from_table(table),
        Err(FieldMapChunkFromTableError::Io(StreamError::UnexpectedEof))
    );
    let mut table = field_map_table();
    table.chunks[4] = vec![1, 2, 3];
    assert_eq!(
        FieldMapChunk::from_table(table),
        Err(FieldMapChunkFromTableError::PaletteDeserialization(
            PaletteDeserializationError::ExtraBytesInInput
        ))
    );
}

fn sample_tileset_bytes() -> Vec<u8> {
    let mut v: Vec<u8> = (0..40u8).map(|i| i % 7).collect();
    v.extend_from_slice(&[0u8; 10]);
    v
}

#[test]
fn battle_tileset_read_and_write() {
    let plain = sample_tileset_bytes();
    let packed = compress(&plain).unwrap();
    let tileset = BattleMap::deserialize_tileset(&packed).unwrap();
    // 50 bytes padded to 64: two tiles of 32 bytes
    assert_eq!(tileset.0.len(), 2);
    assert_eq!(tileset.0[0].0[2], 1);
    assert_eq!(tileset.0[0].0[3], 0);
    let written = BattleMap::serialize_tileset(&tileset).unwrap();
    // trailing zeros are dropped before compressing
    assert_eq!(decompress(&written, true).unwrap(), plain[..40].to_vec());
    assert_eq!(
        BattleMap::deserialize_tileset(&[1, 0]),
        Err(BattleMapTilesetDeserializationError::Decompression(DecompressionError::Io(
            StreamError::UnexpectedEof
        )))
    );
}

fn battle_table() -> DataWithOffsetTable {
    let plain = sample_tileset_bytes();
    let mut chunks = vec![
        vec![1],
        compress(&plain).unwrap(),
        vec![0x1F, 0x00],
        (0..128u8).collect(),
        vec![],
        vec![5u8; 256],
        vec![6],
        vec![],
    ];
    for i in 0..9u8 {
        chunks.push(vec![i]);
    }
    DataWithOffsetTable { chunks, footer: vec![1, 2] }
}

#[test]
fn battle_map_file_round_trip() {
    let table = battle_table();
    let file = BattleMapFile::from_table(table.clone()).unwrap();
    assert_eq!(file.maps.len(), 1);
    assert_eq!(file.maps[0].tile_layers[2].0.rows(), 2);
    assert_eq!(file.unk_last[8], vec![8]);
    assert_eq!(file.padding, vec![1, 2]);
    let back = file.clone().into_table().unwrap();
    assert_eq!(back, table);

    let mut file = file;
    let tileset = match &file.maps[0].tileset {
        MaybeSerialized::Serialized(d) => BattleMap::deserialize_tileset(d).unwrap(),
        MaybeSerialized::Deserialized(_) => unreachable!(),
    };
    file.maps[0].tileset = MaybeSerialized::Deserialized(tileset);
    let reencoded = file.into_table().unwrap();
    assert_eq!(
        decompress(&reencoded.chunks[1], true).unwrap(),
        sample_tileset_bytes()[..40].to_vec()
    );
}

#[test]
fn battle_map_file_errors() {
    let mut table = battle_table();
    table.chunks.pop();
    assert_eq!(
        BattleMapFile::from_table(table),
        Err(BattleMapFileFromTableError::InvalidNumberOfChunks(16))
    );
    let mut table = battle_table();
    table.chunks[2] = vec![1];
    assert_eq!(
        BattleMapFile::from_table(table),
        Err(BattleMapFileFromTableError::PaletteDeserialization(
            PaletteDeserializationError::ExtraBytesInInput
        ))
    );
}

fn put_u32s(buf: &mut Vec<u8>, at: usize, words: &[u32]) {
    for (i, w) in words.iter().enumerate() {
        buf[at + 4 * i..at + 4 * i + 4].copy_from_slice(&w.to_le_bytes());
    }
}

fn overlays() -> (Vec<u8>, Vec<u8>) {
    let mut o3 = vec![0u8; 0x19FD0 + 4 * 3405 + 7];
    put_u32s(&mut o3, 0x11310, &[16, 0, 8, 12]);
    let table: Vec<u32> = (0..3405u32)
        .map(|i| if i % 5 == 4 { u32::MAX } else { i * 3 })
        .collect();
    put_u32s(&mut o3, 0x19FD0, &table);
    let mut o4 = vec![0u8; 0x4AA30 + 64];
    put_u32s(&mut o4, 0x4AA30, &[12, 0, 4]);
    (o3, o4)
}

#[test]
fn field_maps_round_trip() {
    let (o3, o4) = overlays();
    let fmapdata: Vec<u8> = (0..12u8).chain([0xAA, 0xAA, 0xAA]).collect();
    let treasure = vec![1u8, 2, 3, 4];
    let maps = FieldMaps::from_files(&fmapdata, &treasure, &o3, &o4).unwrap();
    assert_eq!(maps.fmapdata_chunks.len(), 2);
    assert_eq!(maps.fmapdata_chunks[1], MaybeCompressedData::Compressed(vec![8, 9, 10, 11]));
    assert_eq!(maps.fmapdata_padding, vec![0xAA; 3]);
    assert_eq!(maps.treasure_data, vec![vec![1, 2, 3, 4]]);
    assert_eq!(maps.maps.len(), 0x2A9);
    assert_eq!(maps.maps[1].tileset_indexes, [Some(15), Some(18), Some(21)]);
    assert_eq!(maps.maps[1].map_chunk_index, 24);
    assert_eq!(maps.maps[1].treasure_data_index, None);

    let (mut f, mut t, mut n3, mut n4) = (Vec::new(), Vec::new(), o3.clone(), o4.clone());
    maps.to_files(&mut f, &mut t, &mut n3, &mut n4, false).unwrap();
    assert_eq!(f, fmapdata);
    assert_eq!(t, treasure);
    assert_eq!(n3, o3);
    assert_eq!(n4, o4);

    let (mut f, mut t, mut n3, mut n4) = (Vec::new(), Vec::new(), Vec::new(), Vec::new());
    maps.to_files(&mut f, &mut t, &mut n3, &mut n4, true).unwrap();
    assert_eq!(f.len(), 512);
    assert_eq!(t.len(), 512);
    assert_eq!(n3.len(), 0x19FD0 + 4 * 3405);
    assert_eq!(&n3[0x11310..0x11320], &o3[0x11310..0x11320]);
    assert_eq!(n4.len(), 0x4AA30 + 12);
}

#[test]
fn field_maps_errors() {
    let (o3, o4) = overlays();
    let short = &o3[..0x19FD0];
    assert!(FieldMaps::from_files(&[], &[], short, &o4).is_err());
    let mut maps = FieldMaps::from_files(&(0..12u8).collect::<Vec<u8>>(), &[1, 2, 3, 4], &o3, &o4)
        .unwrap();
    maps.maps.pop();
    let (mut f, mut t, mut n3, mut n4) = (Vec::new(), Vec::new(), Vec::new(), Vec::new());
    assert_eq!(
        maps.to_files(&mut f, &mut t, &mut n3, &mut n4, false),
        Err(FieldMapsToFilesError::IncorrectNumberOfMaps(0x2A8))
    );
    assert!(f.is_empty() && n3.is_empty());
}

#[test]
fn tile_rgba_conversions() {
    let palette = Palette(vec![
        Rgb555::new(1, 2, 3),
        Rgb555::new(31, 0, 0),
        Rgb555::new(0, 31, 0),
        Rgb555::new(0, 0, 31),
    ]);
    let mut pixels = [0u8; 64];
    pixels[5] = 1;
    pixels[6] = 2;
    let tile = TilesetTile(pixels);
    let rgba = tile.as_rgba8888(&palette);
    assert_eq!(rgba[0].a, 0);
    assert_eq!(rgba[5], Rgba8888 { r: 0xF8, g: 0, b: 0, a: 0xFF });
    let shifted = tile.as_rgba8888_with_offset(&palette, 1);
    assert_eq!(shifted[5], Rgba8888 { r: 0, g: 0xF8, b: 0, a: 0xFF });
    assert_eq!(TilesetTile::from_rgba8888(&rgba, &palette).unwrap(), tile);
    let set = Tileset(vec![tile]);
    assert_eq!(set.to_bytes(PixelFormat::EightBitsPerPixel).unwrap().len(), 64);
}
