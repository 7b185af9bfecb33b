//! Assembly of a layered 2D array tileset image from tiles copied out of source images.
use vstd::prelude::*;

use bevy::asset::RenderAssetUsages;
use bevy::image::{Image, ImageSampler};
use wgpu_types::{Extent3d, TextureDimension, TextureFormat};

use crate::geom::UVec2;

verus! {

#[verifier::external_type_specification]
#[verifier::external_body]
pub struct ExTextureFormat(TextureFormat);

#[verifier::external_type_specification]
#[verifier::external_body]
pub struct ExImage(Image);

/// Relies on `wgpu_types::TextureFormat::block_dimensions`: the texel extent of one block of the
/// format, `(1, 1)` for every uncompressed format.
#[verifier::external_body]
fn block_dimensions(format: &TextureFormat) -> (r: (u32, u32)) {
    format.block_dimensions()
}

/// Relies on `wgpu_types::TextureFormat::block_copy_size` without an aspect: the bytes of one
/// block, between 1 and 16, or `None` for depth-stencil, `Depth24Plus` and multi-planar formats.
#[verifier::external_body]
fn block_copy_size(format: &TextureFormat) -> (r: Option<u32>)
    ensures
        r matches Some(n) ==> 1 <= n <= 16,
{
    format.block_copy_size(None)
}

/// Relies on the derived `PartialEq` of `wgpu_types::TextureFormat`, which compares variants and
/// their fields.
#[verifier::external_body]
fn same_format(a: &TextureFormat, b: &TextureFormat) -> (r: bool)
    ensures
        r == (*a == *b),
{
    *a == *b
}

/// Relies on the `texture_descriptor.format` field of `bevy::image::Image`.
#[verifier::external_body]
pub(crate) fn image_format(image: &Image) -> (r: TextureFormat) {
    image.texture_descriptor.format
}

/// Relies on `bevy::image::Image::width`: the width of the image in pixels.
#[verifier::external_body]
fn image_width(image: &Image) -> (r: u32) {
    image.width()
}

/// Relies on the `data` field of `bevy::image::Image`: the pixel bytes, if the image holds any.
#[verifier::external_body]
fn image_data(image: &Image) -> (r: Option<&[u8]>) {
    image.data.as_deref()
}

/// Relies on `bevy::image::Image::new_uninit`: a 2D array image of `layers` layers of `width` by
/// `height` pixels in `format`, used by the render world, which then holds `data` as its pixels.
#[verifier::external_body]
fn new_array_image(width: u32, height: u32, layers: u32, data: Vec<u8>, format: TextureFormat) -> (r:
    Image) {
    let mut image = Image::new_uninit(
        Extent3d { width, height, depth_or_array_layers: layers },
        TextureDimension::D2,
        format,
        RenderAssetUsages::RENDER_WORLD,
    );
    image.data = Some(data);
    image
}

/// Relies on `bevy::image::ImageSampler::nearest`: nearest-neighbour sampling.
#[verifier::external_body]
fn use_nearest_sampling(image: &mut Image) {
    image.sampler = ImageSampler::nearest();
}

/// The bytes of one tile, copied row by row: `rows` runs of `row_bytes` bytes of `src`, the first
/// at `offset` and each next one `stride` bytes further.
pub open spec fn tile_rows(src: Seq<u8>, offset: int, stride: int, row_bytes: int, rows: nat) -> Seq<u8>
    decreases rows,
{
    if rows == 0 {
        Seq::empty()
    } else {
        let r = rows - 1;
        tile_rows(src, offset, stride, row_bytes, r as nat) + src.subrange(
            offset + r * stride,
            offset + r * stride + row_bytes,
        )
    }
}

proof fn lemma_tile_rows_len(src: Seq<u8>, offset: int, stride: int, row_bytes: int, rows: nat)
    requires
        0 <= row_bytes,
        0 <= offset,
        0 <= stride,
        rows > 0 ==> offset + (rows - 1) * stride + row_bytes <= src.len(),
    ensures
        tile_rows(src, offset, stride, row_bytes, rows).len() == rows * row_bytes,
    decreases rows,
{
    if rows > 0 {
        let r = rows - 1;
        if r > 0 {
            assert(offset + (r - 1) * stride + row_bytes <= offset + r * stride + row_bytes) by (
            nonlinear_arith)
                requires
                    0 <= stride,
                    r > 0,
            ;
        }
        assert(0 <= r * stride) by (nonlinear_arith)
            requires
                0 <= stride,
                r >= 0,
        ;
        lemma_tile_rows_len(src, offset, stride, row_bytes, r as nat);
        assert(rows * row_bytes == r * row_bytes + row_bytes) by (nonlinear_arith)
            requires
                r == rows - 1,
        ;
    }
}

/// Returned when a tileset builder is asked for a format without a whole number of bytes per
/// pixel.
#[derive(Debug)]
pub struct UnsupportedFormatError(pub TextureFormat);

/// Why a tile could not be copied.
#[derive(Debug)]
pub enum AddTileError {
    /// The source image holds no pixel data.
    NoSourceData,
    /// The source image is in another format than the tileset.
    IncorrectFormat { exp: TextureFormat, got: TextureFormat },
    /// The tile reaches past the end of the source image's data.
    InvalidSourceOffset,
}

/// The finished layers of a tileset: `depth` tiles of `tile_size` pixels, one after another.
pub struct TilesetLayers {
    pub tile_size: UVec2,
    pub format: TextureFormat,
    pub depth: u32,
    pub data: Vec<u8>,
}

/// Builds a 2D array tileset image, one layer per tile, from tiles of one or more source images.
pub struct TilesetImageBuilder {
    tile_size: UVec2,
    format: TextureFormat,
    px_bytes: usize,
    data: Vec<u8>,
    tiles: u16,
}

/// Position of the first byte of a tile at pixel `offset` of an image `width` pixels wide.
pub open spec fn tile_offset(offset: UVec2, width: u32, px_bytes: int) -> int {
    (offset.x + width * offset.y) * px_bytes
}

/// Position just past the last byte read for a tile at pixel `offset`.
pub open spec fn tile_end(tile_size: UVec2, offset: UVec2, width: u32, px_bytes: int) -> int {
    tile_offset(offset, width, px_bytes) + (tile_size.y - 1) * (width * px_bytes) + tile_size.x
        * px_bytes
}

/// The pixel size a format with the given block extent and block size has, if a whole number
/// of bytes.
pub open spec fn spec_pixel_size(dims: (u32, u32), copy_size: Option<u32>) -> Option<usize> {
    if dims.0 == 1 && dims.1 == 1 && copy_size is Some {
        Some(copy_size.unwrap() as usize)
    } else {
        None
    }
}

/// Bytes per pixel of a format whose blocks are `dims` texels of `copy_size` bytes: only
/// single-texel blocks with a known size give a pixel size.
pub fn pixel_size(dims: (u32, u32), copy_size: Option<u32>) -> (r: Option<usize>)
    ensures
        r == spec_pixel_size(dims, copy_size),
{
    if dims.0 == 1 && dims.1 == 1 {
        match copy_size {
            Some(n) => Some(n as usize),
            None => None,
        }
    } else {
        None
    }
}

impl TilesetImageBuilder {
    pub closed spec fn spec_tile_size(&self) -> UVec2 {
        self.tile_size
    }

    pub closed spec fn spec_format(&self) -> TextureFormat {
        self.format
    }

    pub closed spec fn px_bytes(&self) -> int {
        self.px_bytes as int
    }

    /// The tile bytes gathered so far.
    pub closed spec fn bytes(&self) -> Seq<u8> {
        self.data@
    }

    /// The number of tiles gathered so far.
    pub closed spec fn tile_count(&self) -> nat {
        self.tiles as nat
    }

    /// Bytes in one tile.
    pub open spec fn tile_bytes(&self) -> int {
        self.spec_tile_size().x * self.spec_tile_size().y * self.px_bytes()
    }

    /// The buffer holds exactly the gathered tiles.
    pub open spec fn wf(&self) -> bool {
        &&& self.spec_tile_size().x > 0
        &&& self.spec_tile_size().y > 0
        &&& 1 <= self.px_bytes() <= 16
        &&& self.bytes().len() == self.tile_count() * self.tile_bytes()
    }

    /// An empty builder for tiles of `tile_size` pixels in `format`, whose blocks are
    /// `block_dims` texels of `block_copy_size` bytes; fails when that gives no whole number of
    /// bytes per pixel.
    pub fn from_block_info(
        tile_size: UVec2,
        format: TextureFormat,
        block_dims: (u32, u32),
        block_copy_size: Option<u32>,
    ) -> (r: Result<Self, UnsupportedFormatError>)
        requires
            tile_size.x > 0,
            tile_size.y > 0,
            block_copy_size matches Some(n) ==> 1 <= n <= 16,
        ensures
            spec_pixel_size(block_dims, block_copy_size) is Some <==> r is Ok,
            r matches Ok(b) ==> b.wf() && b.spec_tile_size() == tile_size && b.spec_format()
                == format && b.tile_count() == 0 && b.bytes().len() == 0 && b.px_bytes()
                == spec_pixel_size(block_dims, block_copy_size).unwrap(),
            r matches Err(e) ==> e.0 == format,
    {
        match pixel_size(block_dims, block_copy_size) {
            Some(px_bytes) => {
                let b = TilesetImageBuilder { tile_size, format, px_bytes, data: Vec::new(), tiles: 0 };
                assert(b.tile_count() * b.tile_bytes() == 0);
                Ok(b)
            },
            None => Err(UnsupportedFormatError(format)),
        }
    }

    /// An empty builder for tiles of `tile_size` pixels in `format`; fails when the format has
    /// no whole number of bytes per pixel.
    pub fn new(tile_size: UVec2, format: TextureFormat) -> (r: Result<Self, UnsupportedFormatError>)
        requires
            tile_size.x > 0,
            tile_size.y > 0,
        ensures
            r matches Ok(b) ==> b.wf() && b.spec_tile_size() == tile_size && b.spec_format()
                == format && b.tile_count() == 0,
            r matches Err(e) ==> e.0 == format,
    {
        let dims = block_dimensions(&format);
        let copy_size = block_copy_size(&format);
        Self::from_block_info(tile_size, format, dims, copy_size)
    }

    /// Copies the tile at pixel `source_offset` of the source image and returns its layer index.
    pub fn add_tile(&mut self, source_image: &Image, source_offset: UVec2) -> (r: Result<
        u16,
        AddTileError,
    >)
        requires
            old(self).wf(),
            old(self).tile_count() < u16::MAX,
            old(self).bytes().len() + old(self).tile_bytes() <= usize::MAX,
        ensures
            final(self).wf(),
            final(self).spec_tile_size() == old(self).spec_tile_size(),
            final(self).spec_format() == old(self).spec_format(),
            final(self).px_bytes() == old(self).px_bytes(),
            r is Ok ==> r->Ok_0 == old(self).tile_count() && final(self).tile_count()
                == old(self).tile_count() + 1,
            r is Err ==> *final(self) == *old(self),
    {
        let format = image_format(source_image);
        let width = image_width(source_image);
        let data = image_data(source_image);
        self.add_tile_bytes(format, width, data, source_offset)
    }

    /// Copies the tile at pixel `source_offset` of a source image `width` pixels wide, in
    /// `format`, with pixel bytes `source`, and returns its layer index.
    pub fn add_tile_bytes(
        &mut self,
        format: TextureFormat,
        width: u32,
        source: Option<&[u8]>,
        source_offset: UVec2,
    ) -> (r: Result<u16, AddTileError>)
        requires
            old(self).wf(),
            old(self).tile_count() < u16::MAX,
            old(self).bytes().len() + old(self).tile_bytes() <= usize::MAX,
        ensures
            final(self).wf(),
            final(self).spec_tile_size() == old(self).spec_tile_size(),
            final(self).spec_format() == old(self).spec_format(),
            final(self).px_bytes() == old(self).px_bytes(),
            format != old(self).spec_format() ==> (r matches Err(AddTileError::IncorrectFormat {
                exp,
                got,
            }) && exp == old(self).spec_format() && got == format),
            format == old(self).spec_format() && source is None ==> (r matches Err(
                AddTileError::NoSourceData,
            )),
            format == old(self).spec_format() && source is Some && tile_end(
                old(self).spec_tile_size(),
                source_offset,
                width,
                old(self).px_bytes(),
            ) > source.unwrap()@.len() ==> (r matches Err(AddTileError::InvalidSourceOffset)),
            format == old(self).spec_format() && source is Some && tile_end(
                old(self).spec_tile_size(),
                source_offset,
                width,
                old(self).px_bytes(),
            ) <= source.unwrap()@.len() ==> r is Ok,
            r is Err ==> *final(self) == *old(self),
            r is Ok ==> {
                &&& format == old(self).spec_format()
                &&& source is Some
                &&& tile_end(old(self).spec_tile_size(), source_offset, width, old(self).px_bytes())
                    <= source.unwrap()@.len()
                &&& r->Ok_0 == old(self).tile_count()
                &&& final(self).tile_count() == old(self).tile_count() + 1
                &&& final(self).bytes() == old(self).bytes() + tile_rows(
                    source.unwrap()@,
                    tile_offset(source_offset, width, old(self).px_bytes()),
                    width * old(self).px_bytes(),
                    old(self).spec_tile_size().x * old(self).px_bytes(),
                    old(self).spec_tile_size().y as nat,
                )
            },
    {
        if !same_format(&format, &self.format) {
            return Err(AddTileError::IncorrectFormat { exp: self.format, got: format });
        }
        let source_data = match source {
            Some(d) => d,
            None => {
                return Err(AddTileError::NoSourceData);
            },
        };
        let px = self.px_bytes as u128;
        proof {
            assert(source_offset.x + width * source_offset.y <= 0xffff_ffff + 0xffff_ffff
                * 0xffff_ffff) by (nonlinear_arith)
                requires
                    source_offset.x <= 0xffff_ffff,
                    width <= 0xffff_ffff,
                    source_offset.y <= 0xffff_ffff,
            ;
            assert((source_offset.x + width * source_offset.y) * px <= (0xffff_ffff + 0xffff_ffff
                * 0xffff_ffff) * 16) by (nonlinear_arith)
                requires
                    source_offset.x + width * source_offset.y <= 0xffff_ffff + 0xffff_ffff
                        * 0xffff_ffff,
                    px <= 16,
            ;
            assert((self.tile_size.y - 1) * (width * px) <= 0xffff_ffff * (0xffff_ffff * 16)) by (
            nonlinear_arith)
                requires
                    0 <= self.tile_size.y - 1 <= 0xffff_ffff,
                    width <= 0xffff_ffff,
                    px <= 16,
            ;
            assert(width * px <= 0xffff_ffff * 16) by (nonlinear_arith)
                requires
                    width <= 0xffff_ffff,
                    px <= 16,
            ;
            assert(self.tile_size.x * px <= 0xffff_ffff * 16) by (nonlinear_arith)
                requires
                    self.tile_size.x <= 0xffff_ffff,
                    px <= 16,
            ;
        }
        let byte_offset: u128 = (source_offset.x as u128 + width as u128 * source_offset.y as u128)
            * px;
        let srow_bytes: u128 = width as u128 * px;
        let trow_bytes: u128 = self.tile_size.x as u128 * px;
        let last_byte: u128 = byte_offset + (self.tile_size.y as u128 - 1) * srow_bytes + trow_bytes;
        if last_byte > source_data.len() as u128 {
            return Err(AddTileError::InvalidSourceOffset);
        }
        let ghost src = source_data@;
        let ghost old_bytes = self.data@;
        let ghost off = byte_offset as int;
        let ghost stride = srow_bytes as int;
        let ghost run = trow_bytes as int;
        let rows = self.tile_size.y as usize;
        let mut r: usize = 0;
        while r < rows
            invariant
                0 <= r <= rows,
                rows == self.tile_size.y,
                self.tile_size == old(self).tile_size,
                self.format == old(self).format,
                self.px_bytes == old(self).px_bytes,
                self.tiles == old(self).tiles,
                src == source_data@,
                off + (rows - 1) * stride + run <= src.len(),
                0 <= off,
                0 <= stride,
                0 <= run,
                stride == width * self.px_bytes,
                run == self.tile_size.x * self.px_bytes,
                self.data@ == old_bytes + tile_rows(src, off, stride, run, r as nat),
                old_bytes == old(self).data@,
                old_bytes.len() + old(self).tile_bytes() <= usize::MAX,
                byte_offset == off,
                srow_bytes == stride,
                trow_bytes == run,
                src.len() <= usize::MAX,
            decreases rows - r,
        {
            proof {
                assert(r * stride <= (rows - 1) * stride) by (nonlinear_arith)
                    requires
                        r < rows,
                        0 <= stride,
                ;
                assert(0 <= r * stride) by (nonlinear_arith)
                    requires
                        0 <= r,
                        0 <= stride,
                ;
                assert(r as u128 * srow_bytes == r * stride);
            }
            let i = (byte_offset + r as u128 * srow_bytes) as usize;
            let j = i + trow_bytes as usize;
            let mut c: usize = i;
            let ghost before = self.data@;
            while c < j
                invariant
                    i <= c <= j,
                    j <= src.len(),
                    src == source_data@,
                    self.tile_size == old(self).tile_size,
                    self.format == old(self).format,
                    self.px_bytes == old(self).px_bytes,
                    self.tiles == old(self).tiles,
                    self.data@ == before + src.subrange(i as int, c as int),
                decreases j - c,
            {
                self.data.push(source_data[c]);
                proof {
                    assert(src.subrange(i as int, c + 1) == src.subrange(i as int, c as int).push(
                        src[c as int],
                    ));
                }
                c += 1;
            }
            proof {
                assert(i as int == off + r * stride);
                assert(tile_rows(src, off, stride, run, (r + 1) as nat) == tile_rows(
                    src,
                    off,
                    stride,
                    run,
                    r as nat,
                ) + src.subrange(off + r * stride, off + r * stride + run));
                assert(self.data@ == old_bytes + tile_rows(src, off, stride, run, (r + 1) as nat));
            }
            r += 1;
        }
        proof {
            lemma_tile_rows_len(src, off, stride, run, rows as nat);
            assert(self.tile_count() * self.tile_bytes() + self.tile_bytes() == (self.tile_count()
                + 1) * self.tile_bytes()) by (nonlinear_arith);
            assert(rows * run == self.tile_bytes()) by (nonlinear_arith)
                requires
                    rows == self.spec_tile_size().y,
                    run == self.spec_tile_size().x * self.px_bytes(),
            ;
        }
        Ok(self.next_tile_id())
    }

    fn next_tile_id(&mut self) -> (r: u16)
        requires
            old(self).tiles < u16::MAX,
        ensures
            r == old(self).tiles,
            final(self).tiles == old(self).tiles + 1,
            final(self).tile_size == old(self).tile_size,
            final(self).format == old(self).format,
            final(self).px_bytes == old(self).px_bytes,
            final(self).data == old(self).data,
    {
        let n = self.tiles;
        self.tiles = n + 1;
        n
    }

    /// The layers of the finished tileset. When the tile count is a nonzero multiple of six one
    /// all-zero tile is appended, so that the array is never mistaken for a cube map.
    pub fn finish(self) -> (r: TilesetLayers)
        requires
            self.wf(),
            self.bytes().len() + self.tile_bytes() <= usize::MAX,
        ensures
            r.tile_size == self.spec_tile_size(),
            r.format == self.spec_format(),
            r.depth == padded_depth(self.tile_count()),
            r.data@ == self.bytes() + Seq::new(
                ((r.depth - self.tile_count()) * self.tile_bytes()) as nat,
                |i: int| 0u8,
            ),
    {
        let mut data = self.data;
        let mut depth = self.tiles as u32;
        let ghost old_data = data@;
        if self.tiles > 0 && self.tiles % 6 == 0 {
            proof {
                let tx = self.spec_tile_size().x as int;
                let ty = self.spec_tile_size().y as int;
                assert(0 <= tx * ty <= tx * ty * self.px_bytes()) by (nonlinear_arith)
                    requires
                        tx > 0,
                        ty > 0,
                        self.px_bytes() > 0,
                ;
                assert(self.tile_bytes() <= usize::MAX);
            }
            let tile_bytes = (self.tile_size.x as usize) * (self.tile_size.y as usize)
                * self.px_bytes;
            assert(tile_bytes == self.tile_bytes());
            let mut k: usize = 0;
            while k < tile_bytes
                invariant
                    k <= tile_bytes,
                    data@ == old_data + Seq::new(k as nat, |i: int| 0u8),
                decreases tile_bytes - k,
            {
                data.push(0u8);
                proof {
                    assert(Seq::new((k + 1) as nat, |i: int| 0u8) == Seq::new(k as nat, |i: int| 0u8).push(
                        0u8,
                    ));
                }
                k += 1;
            }
            depth = depth + 1;
            assert(depth - self.tile_count() == 1);
            assert(((depth - self.tile_count()) * self.tile_bytes()) == self.tile_bytes());
        } else {
            assert(data@ == old_data + Seq::new(0, |i: int| 0u8));
        }
        TilesetLayers { tile_size: self.tile_size, format: self.format, depth, data }
    }

    /// The finished tileset image: one layer per tile, padded as `finish` describes, sampled
    /// nearest-neighbour.
    pub fn build(self) -> Image
        requires
            self.wf(),
            self.bytes().len() + self.tile_bytes() <= usize::MAX,
    {
        self.finish().into_image()
    }
}

impl TilesetLayers {
    /// The 2D array image of these layers, sampled nearest-neighbour.
    pub fn into_image(self) -> Image {
        let mut image = new_array_image(
            self.tile_size.x,
            self.tile_size.y,
            self.depth,
            self.data,
            self.format,
        );
        use_nearest_sampling(&mut image);
        image
    }
}

/// What the tileset logic reads of a source image, as plain values: its format, the texel extent
/// and byte size of the format's blocks, its width in pixels, and its pixel bytes if it has any.
pub struct TilesetSource {
    pub format: TextureFormat,
    pub block_dims: (u32, u32),
    pub block_copy_size: Option<u32>,
    pub width: u32,
    pub data: Option<Vec<u8>>,
}

impl TilesetSource {
    /// The source as the image describes it.
    pub fn from_image(image: &Image) -> (r: Self)
        ensures
            r.block_copy_size matches Some(n) ==> 1 <= n <= 16,
    {
        let format = image_format(image);
        let block_dims = block_dimensions(&format);
        let block_copy_size = block_copy_size(&format);
        let width = image_width(image);
        let data = match image_data(image) {
            Some(d) => Some(vstd::slice::slice_to_vec(d)),
            None => None,
        };
        TilesetSource { format, block_dims, block_copy_size, width, data }
    }

    /// Bytes per pixel of the source's format, if a whole number.
    pub open spec fn px_bytes(&self) -> Option<usize> {
        spec_pixel_size(self.block_dims, self.block_copy_size)
    }
}

/// The layer count of a tileset of `n` tiles: `n`, plus one when `n` is a nonzero multiple of
/// six.
pub open spec fn padded_depth(n: nat) -> nat {
    if n > 0 && n % 6 == 0 {
        n + 1
    } else {
        n
    }
}

/// The finished tileset holds the gathered tiles first, byte for byte in the order they were
/// added, then zeros; it has one layer more than tiles exactly when the tile count is a nonzero
/// multiple of six.
pub proof fn finished_layers_keep_tiles(b: TilesetImageBuilder, r: TilesetLayers)
    requires
        b.wf(),
        r.depth == padded_depth(b.tile_count()),
        r.data@ == b.bytes() + Seq::new(
            ((r.depth - b.tile_count()) * b.tile_bytes()) as nat,
            |i: int| 0u8,
        ),
    ensures
        r.depth == b.tile_count() || r.depth == b.tile_count() + 1,
        r.depth == b.tile_count() + 1 <==> (b.tile_count() % 6 == 0 && b.tile_count() > 0),
        r.data@.subrange(0, b.tile_count() * b.tile_bytes()) == b.bytes(),
        r.data@.len() == r.depth * b.tile_bytes(),
        forall|i: int| b.bytes().len() <= i < r.data@.len() ==> #[trigger] r.data@[i] == 0u8,
{
    let n = b.tile_count() as int;
    let t = b.tile_bytes();
    assert(0 <= t) by (nonlinear_arith)
        requires
            t == b.spec_tile_size().x * b.spec_tile_size().y * b.px_bytes(),
            b.px_bytes() >= 1,
    ;
    assert(r.data@.subrange(0, n * t) == b.bytes());
    assert(n * t + (r.depth - n) * t == r.depth * t) by (nonlinear_arith);
}

/// The regions one after another.
pub open spec fn concat_all(regions: Seq<Seq<u8>>) -> Seq<u8>
    decreases regions.len(),
{
    if regions.len() == 0 {
        Seq::empty()
    } else {
        concat_all(regions.drop_last()) + regions.last()
    }
}

/// Tiles added one after another lie in the buffer in the order they were added: when each
/// builder of `bs` holds the bytes of the one before followed by the tile `regions[k]` copied in
/// between, the last holds the first one's bytes followed by all the tiles in order.
pub proof fn added_tiles_keep_call_order(bs: Seq<TilesetImageBuilder>, regions: Seq<Seq<u8>>)
    requires
        bs.len() == regions.len() + 1,
        forall|k: int|
            0 <= k < regions.len() ==> #[trigger] bs[k + 1].bytes() == bs[k].bytes() + regions[k],
    ensures
        bs.last().bytes() == bs[0].bytes() + concat_all(regions),
    decreases regions.len(),
{
    if regions.len() > 0 {
        let n = regions.len() - 1;
        let pb = bs.drop_last();
        let pr = regions.drop_last();
        assert forall|k: int| 0 <= k < pr.len() implies #[trigger] pb[k + 1].bytes() == pb[k].bytes()
            + pr[k] by {
            assert(pb[k + 1] == bs[k + 1]);
            assert(pb[k] == bs[k]);
            assert(pr[k] == regions[k]);
        }
        added_tiles_keep_call_order(pb, pr);
        assert(bs[n + 1].bytes() == bs[n].bytes() + regions[n]);
        assert(pb.last() == bs[n]);
        assert(bs[0].bytes() + concat_all(regions) =~= (bs[0].bytes() + concat_all(pr)) + regions[n]);
    } else {
        assert(bs[0].bytes() + concat_all(regions) =~= bs[0].bytes());
    }
}

} // verus!
