use bevy::asset::RenderAssetUsages;
use bevy::image::Image;
use ducky_core::geom::UVec2;
use ducky_core::tileset_image::{pixel_size, AddTileError, TilesetImageBuilder};

use wgpu_types::{Extent3d, TextureDimension, TextureFormat};

fn source_image(width: u32, height: u32, format: TextureFormat, px: usize) -> Image {
    let data: Vec<u8> = (0..(width as usize * height as usize * px)).map(|i| (i % 251) as u8 + 1).collect();
    Image::new(
        Extent3d { width, height, depth_or_array_layers: 1 },
        TextureDimension::D2,
        data,
        format,
        RenderAssetUsages::default(),
    )
}

fn tile_region(image: &Image, ox: u32, oy: u32, tw: u32, th: u32, px: usize) -> Vec<u8> {
    let data = image.data.as_ref().unwrap();
    let w = image.width() as usize;
    let mut out = Vec::new();
    for r in 0..th as usize {
        let start = ((ox as usize) + w * (oy as usize + r)) * px;
        out.extend_from_slice(&data[start..start + tw as usize * px]);
    }
    out
}

#[test]
fn six_tiles_get_a_seventh_blank_layer() {
    let image = source_image(96, 16, TextureFormat::Rgba8Unorm, 4);
    let mut builder = TilesetImageBuilder::new(UVec2::new(16, 16), TextureFormat::Rgba8Unorm).unwrap();
    let mut expected = Vec::new();
    for i in 0..6u32 {
        let id = builder.add_tile(&image, UVec2::new(16 * i, 0)).unwrap();
        assert_eq!(id, i as u16);
        expected.extend(tile_region(&image, 16 * i, 0, 16, 16, 4));
    }
    let built = builder.build();
    assert_eq!(built.texture_descriptor.size.depth_or_array_layers, 7);
    assert_eq!(built.texture_descriptor.size.width, 16);
    assert_eq!(built.texture_descriptor.size.height, 16);
    assert_eq!(built.texture_descriptor.format, TextureFormat::Rgba8Unorm);
    let data = built.data.unwrap();
    let tile_bytes = 16 * 16 * 4;
    assert_eq!(data.len(), 7 * tile_bytes);
    assert_eq!(&data[..6 * tile_bytes], &expected[..]);
    assert!(data[6 * tile_bytes..].iter().all(|&b| b == 0));
}

#[test]
fn layer_count_is_padded_only_for_nonzero_multiples_of_six() {
    let image = source_image(8, 8, TextureFormat::R8Unorm, 1);
    for n in [0usize, 1, 5, 6, 7, 12, 13] {
        let mut builder = TilesetImageBuilder::new(UVec2::new(2, 2), TextureFormat::R8Unorm).unwrap();
        for i in 0..n {
            builder.add_tile(&image, UVec2::new((i % 4) as u32 * 2, (i / 4) as u32 * 2)).unwrap();
        }
        let layers = builder.finish();
        let expected = if n > 0 && n % 6 == 0 { n + 1 } else { n };
        assert_eq!(layers.depth as usize, expected);
        assert_eq!(layers.data.len(), expected * 4);
    }
}

#[test]
fn tile_rows_are_copied_in_order() {
    let image = source_image(4, 3, TextureFormat::Rg8Unorm, 2);
    let mut builder = TilesetImageBuilder::new(UVec2::new(2, 2), TextureFormat::Rg8Unorm).unwrap();
    assert_eq!(builder.add_tile(&image, UVec2::new(1, 1)).unwrap(), 0);
    let layers = builder.finish();
    assert_eq!(layers.depth, 1);
    // Pixel (1,1) starts at byte (1 + 4) * 2 = 10; the next row at byte 18.
    assert_eq!(layers.data, vec![11, 12, 13, 14, 19, 20, 21, 22]);
}

#[test]
fn add_tile_bytes_copies_from_raw_data() {
    let mut builder = TilesetImageBuilder::new(UVec2::new(2, 1), TextureFormat::R8Unorm).unwrap();
    let src = [1u8, 2, 3, 4, 5, 6];
    let id = builder.add_tile_bytes(TextureFormat::R8Unorm, 3, Some(&src[..]), UVec2::new(1, 1)).unwrap();
    assert_eq!(id, 0);
    assert_eq!(builder.finish().data, vec![5, 6]);
}

#[test]
fn mismatched_format_is_rejected() {
    let image = source_image(4, 4, TextureFormat::R8Unorm, 1);
    let mut builder = TilesetImageBuilder::new(UVec2::new(2, 2), TextureFormat::Rgba8Unorm).unwrap();
    match builder.add_tile(&image, UVec2::new(0, 0)) {
        Err(AddTileError::IncorrectFormat { exp, got }) => {
            assert_eq!(exp, TextureFormat::Rgba8Unorm);
            assert_eq!(got, TextureFormat::R8Unorm);
        }
        other => panic!("unexpected {other:?}"),
    }
    assert_eq!(builder.finish().depth, 0);
}

#[test]
fn image_without_data_is_rejected() {
    let image = Image::new_uninit(
        Extent3d { width: 4, height: 4, depth_or_array_layers: 1 },
        TextureDimension::D2,
        TextureFormat::R8Unorm,
        RenderAssetUsages::default(),
    );
    let mut builder = TilesetImageBuilder::new(UVec2::new(2, 2), TextureFormat::R8Unorm).unwrap();
    assert!(matches!(builder.add_tile(&image, UVec2::new(0, 0)), Err(AddTileError::NoSourceData)));
}

#[test]
fn tile_past_the_end_is_rejected() {
    let image = source_image(4, 4, TextureFormat::R8Unorm, 1);
    let mut builder = TilesetImageBuilder::new(UVec2::new(2, 2), TextureFormat::R8Unorm).unwrap();
    assert!(builder.add_tile(&image, UVec2::new(2, 2)).is_ok());
    assert!(matches!(
        builder.add_tile(&image, UVec2::new(3, 3)),
        Err(AddTileError::InvalidSourceOffset)
    ));
    assert!(matches!(
        builder.add_tile(&image, UVec2::new(0, 4)),
        Err(AddTileError::InvalidSourceOffset)
    ));
    assert_eq!(builder.finish().depth, 1);
}

#[test]
fn formats_without_a_whole_pixel_size_are_unsupported() {
    assert!(TilesetImageBuilder::new(UVec2::new(4, 4), TextureFormat::Bc1RgbaUnorm).is_err());
    assert!(TilesetImageBuilder::new(UVec2::new(4, 4), TextureFormat::Depth24Plus).is_err());
    assert!(TilesetImageBuilder::new(UVec2::new(4, 4), TextureFormat::Depth24PlusStencil8).is_err());
    match TilesetImageBuilder::new(UVec2::new(4, 4), TextureFormat::Depth24Plus) {
        Err(e) => assert_eq!(e.0, TextureFormat::Depth24Plus),
        Ok(_) => panic!("expected an error"),
    }
    assert!(TilesetImageBuilder::new(UVec2::new(4, 4), TextureFormat::Rgba32Float).is_ok());
}

#[test]
fn pixel_size_needs_single_texel_blocks() {
    assert_eq!(pixel_size((1, 1), Some(4)), Some(4));
    assert_eq!(pixel_size((4, 4), Some(8)), None);
    assert_eq!(pixel_size((1, 1), None), None);
}

#[test]
fn pixel_size_follows_the_format() {
    let image = source_image(2, 1, TextureFormat::Rgba16Float, 8);
    let mut builder = TilesetImageBuilder::new(UVec2::new(1, 1), TextureFormat::Rgba16Float).unwrap();
    builder.add_tile(&image, UVec2::new(1, 0)).unwrap();
    let layers = builder.finish();
    assert_eq!(layers.data, vec![9, 10, 11, 12, 13, 14, 15, 16]);
}

#[test]
fn block_info_decides_the_pixel_size() {
    assert!(TilesetImageBuilder::from_block_info(UVec2::new(2, 2), TextureFormat::R8Unorm, (1, 1), Some(1)).is_ok());
    assert!(TilesetImageBuilder::from_block_info(UVec2::new(2, 2), TextureFormat::Bc1RgbaUnorm, (4, 4), Some(8)).is_err());
    assert!(TilesetImageBuilder::from_block_info(UVec2::new(2, 2), TextureFormat::Depth24Plus, (1, 1), None).is_err());
}
