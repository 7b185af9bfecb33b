//! Assembly of a playable level from the layers of a level-editor file: the player spawn, the
//! terrain colliders, and the terrain tileset with its tile layout.
use vstd::prelude::*;

use bevy::image::Image;
use bevy::platform::collections::HashMap;
use bevy::platform::hash::FixedHasher;

use crate::geom::{IRect, IVec2, UVec2};
use crate::level_collision::{colliders_ordered, LevelCollider, LevelCollisionBuilder};
use crate::tileset_image::{
    padded_depth, tile_end, tile_offset, tile_rows, AddTileError, TilesetImageBuilder, TilesetLayers,
    TilesetSource, UnsupportedFormatError,
};

verus! {

#[verifier::external_type_specification]
#[verifier::external_body]
#[verifier::reject_recursive_types(K)]
#[verifier::reject_recursive_types(V)]
#[verifier::reject_recursive_types(S)]
pub struct ExHashMap<K, V, S>(HashMap<K, V, S>);

#[verifier::external_type_specification]
#[verifier::external_body]
pub struct ExFixedHasher(FixedHasher);

/// The source tile ids seen so far and the tileset index each was given.
pub uninterp spec fn tile_ids(m: HashMap<i64, u16>) -> Map<i64, u16>;

/// Relies on `bevy::platform::collections::HashMap::new`: an empty map.
#[verifier::external_body]
fn tile_ids_new() -> (r: HashMap<i64, u16>)
    ensures
        tile_ids(r).dom() == Set::<i64>::empty(),
{
    HashMap::new()
}

/// Relies on `bevy::platform::collections::HashMap::get`: the value under the key, if any.
#[verifier::external_body]
fn tile_ids_get(m: &HashMap<i64, u16>, t: i64) -> (r: Option<u16>)
    ensures
        r == if tile_ids(*m).contains_key(t) {
            Some(tile_ids(*m)[t])
        } else {
            None
        },
{
    m.get(&t).copied()
}

/// Relies on `bevy::platform::collections::HashMap::insert`: stores the value under the key,
/// replacing any earlier one.
#[verifier::external_body]
fn tile_ids_insert(m: &mut HashMap<i64, u16>, t: i64, id: u16)
    ensures
        tile_ids(*final(m)) == tile_ids(*old(m)).insert(t, id),
{
    m.insert(t, id);
}

/// An entity placed in an entities layer, at cell `grid`.
pub struct LdtkEntity {
    pub identifier: String,
    pub grid: (i64, i64),
}

/// A tile of a tiles layer: source tile id `t`, pixel offset `src` in the tileset image, pixel
/// position `px` in the layer.
#[derive(Clone, Copy, Debug)]
pub struct LdtkTile {
    pub t: i64,
    pub src: (i64, i64),
    pub px: (i64, i64),
}

/// One layer of a level: its size in cells, cell size in pixels, and its contents.
pub struct LdtkLayer {
    pub identifier: String,
    pub c_wid: i64,
    pub c_hei: i64,
    pub grid_size: i64,
    pub px_total_offset_x: i64,
    pub px_total_offset_y: i64,
    pub int_grid_csv: Vec<i64>,
    pub entity_instances: Vec<LdtkEntity>,
    pub grid_tiles: Vec<LdtkTile>,
    pub auto_layer_tiles: Vec<LdtkTile>,
    pub tileset_rel_path: Option<String>,
}

/// A level as the editor writes it.
pub struct LdtkLevel {
    pub identifier: String,
    pub world_x: i64,
    pub world_y: i64,
    pub layer_instances: Option<Vec<LdtkLayer>>,
}

/// Why a tile layer could not be turned into a tileset and tile layout.
#[derive(Debug)]
pub enum BuildTilemapError {
    /// The layer names no tileset image.
    PathNotFound,
    /// The tileset image's format has no whole number of bytes per pixel.
    Format(UnsupportedFormatError),
    /// A tile could not be copied from the tileset image.
    AddTile { offset: UVec2, error: AddTileError },
}

/// The layer's tiles: its hand-placed tiles, or its automatic tiles if it has none.
pub open spec fn layer_tiles(layer: &LdtkLayer) -> Seq<LdtkTile> {
    if layer.grid_tiles@.len() == 0 {
        layer.auto_layer_tiles@
    } else {
        layer.grid_tiles@
    }
}

/// Position of a tile in the row-major tile layout, before the layout is turned upside down.
pub open spec fn tile_slot(layer: &LdtkLayer, tile: LdtkTile) -> int {
    (tile.px.0 + layer.c_wid * tile.px.1) / (layer.grid_size as int)
}

/// The layer can be laid out: its cell size is a positive `u32`, its extent fits memory, and every
/// tile sits at non-negative pixel coordinates inside the layer, its source square at `u32`
/// coordinates.
pub open spec fn layer_fits(layer: &LdtkLayer) -> bool {
    &&& 0 < layer.grid_size <= u32::MAX
    &&& 0 <= layer.c_wid <= usize::MAX
    &&& 0 <= layer.c_hei <= usize::MAX
    &&& layer.c_wid * layer.c_hei <= usize::MAX
    &&& forall|k: int|
        0 <= k < layer_tiles(layer).len() ==> 0 <= (#[trigger] layer_tiles(layer)[k]).px.0 && 0
            <= layer_tiles(layer)[k].px.1 && tile_slot(layer, layer_tiles(layer)[k]) < layer.c_wid
            * layer.c_hei && 0 <= layer_tiles(layer)[k].src.0 <= u32::MAX && 0 <= layer_tiles(
            layer,
        )[k].src.1 <= u32::MAX
}

/// The level's layers, none if it has no layer list.
pub open spec fn layers_of(level: &LdtkLevel) -> Seq<LdtkLayer> {
    match level.layer_instances {
        Some(v) => v@,
        None => Seq::empty(),
    }
}

/// Position of the first layer named `name`, if any.
pub open spec fn first_layer_named(layers: Seq<LdtkLayer>, name: Seq<char>) -> Option<int>
    decreases layers.len(),
{
    if layers.len() == 0 {
        None
    } else if layers[0].identifier@ == name {
        Some(0)
    } else {
        match first_layer_named(layers.drop_first(), name) {
            Some(i) => Some(i + 1),
            None => None,
        }
    }
}

/// Position of the first entity named `name`, if any.
pub open spec fn first_entity_named(entities: Seq<LdtkEntity>, name: Seq<char>) -> Option<int>
    decreases entities.len(),
{
    if entities.len() == 0 {
        None
    } else if entities[0].identifier@ == name {
        Some(0)
    } else {
        match first_entity_named(entities.drop_first(), name) {
            Some(i) => Some(i + 1),
            None => None,
        }
    }
}

proof fn lemma_first_layer(layers: Seq<LdtkLayer>, name: Seq<char>, i: int)
    requires
        0 <= i <= layers.len(),
        forall|j: int| 0 <= j < i ==> (#[trigger] layers[j]).identifier@ != name,
    ensures
        i < layers.len() && layers[i].identifier@ == name ==> first_layer_named(layers, name)
            == Some(i),
        i == layers.len() ==> first_layer_named(layers, name) is None,
    decreases i,
{
    if i > 0 {
        let rest = layers.drop_first();
        assert forall|j: int| 0 <= j < i - 1 implies (#[trigger] rest[j]).identifier@ != name by {
            assert(rest[j] == layers[j + 1]);
        }
        lemma_first_layer(rest, name, i - 1);
        if i < layers.len() {
            assert(rest[i - 1] == layers[i]);
        }
    } else if layers.len() > 0 {
        assert(layers[0].identifier@ == name ==> first_layer_named(layers, name) == Some(0int));
    }
}

proof fn lemma_first_entity(entities: Seq<LdtkEntity>, name: Seq<char>, i: int)
    requires
        0 <= i <= entities.len(),
        forall|j: int| 0 <= j < i ==> (#[trigger] entities[j]).identifier@ != name,
    ensures
        i < entities.len() && entities[i].identifier@ == name ==> first_entity_named(
            entities,
            name,
        ) == Some(i),
        i == entities.len() ==> first_entity_named(entities, name) is None,
    decreases i,
{
    if i > 0 {
        let rest = entities.drop_first();
        assert forall|j: int| 0 <= j < i - 1 implies (#[trigger] rest[j]).identifier@ != name by {
            assert(rest[j] == entities[j + 1]);
        }
        lemma_first_entity(rest, name, i - 1);
        if i < entities.len() {
            assert(rest[i - 1] == entities[i]);
        }
    }
}

/// The first layer of the level named `name`.
pub fn get_named_layer<'a>(level: &'a LdtkLevel, name: &str) -> (r: Option<&'a LdtkLayer>)
    ensures
        match first_layer_named(layers_of(level), name@) {
            Some(i) => r == Some(&layers_of(level)[i]),
            None => r is None,
        },
{
    let layers = match &level.layer_instances {
        Some(v) => v,
        None => {
            return None;
        },
    };
    let wanted = name.to_owned();
    let mut i: usize = 0;
    while i < layers.len()
        invariant
            layers@ == layers_of(level),
            wanted@ == name@,
            i <= layers@.len(),
            forall|j: int| 0 <= j < i ==> (#[trigger] layers@[j]).identifier@ != name@,
        decreases layers@.len() - i,
    {
        if layers[i].identifier == wanted {
            proof {
                lemma_first_layer(layers@, name@, i as int);
            }
            return Some(&layers[i]);
        }
        i += 1;
    }
    proof {
        lemma_first_layer(layers@, name@, i as int);
    }
    None
}

/// The first entity of the layer named `name`.
pub fn get_named_entity<'a>(layer: &'a LdtkLayer, name: &str) -> (r: Option<&'a LdtkEntity>)
    ensures
        match first_entity_named(layer.entity_instances@, name@) {
            Some(i) => r == Some(&layer.entity_instances@[i]),
            None => r is None,
        },
{
    let wanted = name.to_owned();
    let mut i: usize = 0;
    while i < layer.entity_instances.len()
        invariant
            wanted@ == name@,
            i <= layer.entity_instances@.len(),
            forall|j: int|
                0 <= j < i ==> (#[trigger] layer.entity_instances@[j]).identifier@ != name@,
        decreases layer.entity_instances@.len() - i,
    {
        if layer.entity_instances[i].identifier == wanted {
            proof {
                lemma_first_entity(layer.entity_instances@, name@, i as int);
            }
            return Some(&layer.entity_instances[i]);
        }
        i += 1;
    }
    proof {
        lemma_first_entity(layer.entity_instances@, name@, i as int);
    }
    None
}

/// The path of the tileset image a tiles layer is drawn from.
pub fn tileset_path(layer: &LdtkLayer) -> (r: Result<&String, BuildTilemapError>)
    ensures
        match layer.tileset_rel_path {
            Some(p) => r == Ok::<&String, BuildTilemapError>(&p),
            None => r matches Err(BuildTilemapError::PathNotFound),
        },
{
    match &layer.tileset_rel_path {
        Some(p) => Ok(p),
        None => Err(BuildTilemapError::PathNotFound),
    }
}

/// The pixel offset of a tile's source square in the tileset image.
pub open spec fn source_offset(tile: LdtkTile) -> UVec2 {
    UVec2 { x: tile.src.0 as u32, y: tile.src.1 as u32 }
}

/// The tileset index of each source tile id among `tiles`, numbered in order of first use, and
/// how many distinct ids there are.
pub open spec fn first_use(tiles: Seq<LdtkTile>) -> (Map<i64, nat>, nat)
    decreases tiles.len(),
{
    if tiles.len() == 0 {
        (Map::empty(), 0)
    } else {
        let (m, n) = first_use(tiles.drop_last());
        if m.contains_key(tiles.last().t) {
            (m, n)
        } else {
            (m.insert(tiles.last().t, n), n + 1)
        }
    }
}

/// The `k`-th of `tiles` is the first with its source id.
pub open spec fn is_first_use(tiles: Seq<LdtkTile>, k: int) -> bool {
    !first_use(tiles.subrange(0, k)).0.contains_key(tiles[k].t)
}

/// The tileset bytes of `tiles`: the `size`-pixel source square of each distinct source id, in
/// order of first use, copied from `src`, an image `width` pixels wide with `px` bytes per pixel.
pub open spec fn tileset_bytes(tiles: Seq<LdtkTile>, src: Seq<u8>, width: u32, px: int, size: u32) -> Seq<
    u8,
>
    decreases tiles.len(),
{
    if tiles.len() == 0 {
        Seq::empty()
    } else {
        let prev = tileset_bytes(tiles.drop_last(), src, width, px, size);
        if first_use(tiles.drop_last()).0.contains_key(tiles.last().t) {
            prev
        } else {
            prev + tile_rows(
                src,
                tile_offset(source_offset(tiles.last()), width, px),
                width * px,
                size * px,
                size as nat,
            )
        }
    }
}

/// The tile layout of `n` cells before it is turned upside down: in each cell, the tileset index
/// `ids` gives the last of `tiles` drawn there, or nothing.
pub open spec fn laid_out(layer: &LdtkLayer, tiles: Seq<LdtkTile>, ids: Map<i64, nat>, n: nat) -> Seq<
    Option<u16>,
>
    decreases tiles.len(),
{
    if tiles.len() == 0 {
        Seq::new(n, |i: int| None)
    } else {
        laid_out(layer, tiles.drop_last(), ids, n).update(
            tile_slot(layer, tiles.last()),
            Some(ids[tiles.last().t] as u16),
        )
    }
}

/// The layer's tiles can be copied from `source`: for each distinct source id, the source has
/// pixel bytes and the tile's square lies inside them.
pub open spec fn tiles_copyable(layer: &LdtkLayer, source: &TilesetSource) -> bool {
    forall|k: int|
        0 <= k < layer_tiles(layer).len() && #[trigger] is_first_use(layer_tiles(layer), k) ==> {
            &&& source.data is Some
            &&& tile_end(
                UVec2 { x: layer.grid_size as u32, y: layer.grid_size as u32 },
                source_offset(layer_tiles(layer)[k]),
                source.width,
                source.px_bytes().unwrap() as int,
            ) <= source.data.unwrap()@.len()
        }
}

/// `layers` and `data` are the tileset and tile layout of `layer` drawn from `source`: one
/// tileset layer per distinct source id, in order of first use, padded as a finished tileset is,
/// and for each cell, bottom row first, the tileset index of the last tile drawn there, if any.
pub open spec fn is_tilemap_of(
    layer: &LdtkLayer,
    source: &TilesetSource,
    layers: TilesetLayers,
    data: Seq<Option<u16>>,
) -> bool {
    let tiles = layer_tiles(layer);
    let (ids, n) = first_use(tiles);
    let g = layer.grid_size as u32;
    let px = source.px_bytes().unwrap() as int;
    let w = layer.c_wid as int;
    let h = layer.c_hei as int;
    &&& layers.tile_size == (UVec2 { x: g, y: g })
    &&& layers.format == source.format
    &&& layers.depth == padded_depth(n)
    &&& layers.data@ == tileset_bytes(tiles, source.data.unwrap()@, source.width, px, g) + Seq::new(
        ((layers.depth - n) * (g * g * px)) as nat,
        |i: int| 0u8,
    )
    &&& data.len() == w * h
    &&& forall|y: int, x: int|
        0 <= y < h && 0 <= x < w ==> #[trigger] data[y * w + x] == laid_out(
            layer,
            tiles,
            ids,
            (w * h) as nat,
        )[(h - 1 - y) * w + x]
}

/// The layer's distinct tiles fit one tileset: fewer than `u16::MAX` of them, and the tileset's
/// bytes, at most 16 per pixel, fit memory.
pub open spec fn tiles_fit(layer: &LdtkLayer) -> bool {
    &&& first_use(layer_tiles(layer)).1 < u16::MAX
    &&& (first_use(layer_tiles(layer)).1 + 1) * (layer.grid_size * layer.grid_size * 16) <= usize::MAX
}

proof fn lemma_first_use_count_grows(ts: Seq<LdtkTile>, k: int)
    requires
        0 <= k <= ts.len(),
    ensures
        first_use(ts.subrange(0, k)).1 <= first_use(ts).1,
    decreases ts.len() - k,
{
    if k < ts.len() {
        let next = ts.subrange(0, k + 1);
        assert(next.drop_last() == ts.subrange(0, k));
        lemma_first_use_count_grows(ts, k + 1);
    } else {
        assert(ts.subrange(0, k) == ts);
    }
}

proof fn lemma_first_use_ids(ts: Seq<LdtkTile>)
    ensures
        forall|t: i64| #[trigger]
            first_use(ts).0.contains_key(t) ==> first_use(ts).0[t] < first_use(ts).1,
        forall|j: int| 0 <= j < ts.len() ==> first_use(ts).0.contains_key(#[trigger] ts[j].t),
    decreases ts.len(),
{
    if ts.len() > 0 {
        let prev = ts.drop_last();
        lemma_first_use_ids(prev);
        let (m0, n0) = first_use(prev);
        assert forall|t: i64| #[trigger]
            first_use(ts).0.contains_key(t) implies first_use(ts).0[t] < first_use(ts).1 by {
            if m0.contains_key(ts.last().t) {
            } else if t == ts.last().t {
            } else {
                assert(m0.contains_key(t));
            }
        }
        assert forall|j: int| 0 <= j < ts.len() implies first_use(ts).0.contains_key(
            #[trigger] ts[j].t,
        ) by {
            if j < ts.len() - 1 {
                assert(prev[j] == ts[j]);
            }
        }
    }
}

/// Builds the tileset of a tiles layer from `source`, one layer per distinct source tile id in
/// order of first use, and the layer's tile layout: for each cell, bottom row first, the tileset
/// index of the last tile drawn there, if any.
pub fn build_tilemap_from_layer(layer: &LdtkLayer, source: &TilesetSource) -> (r: Result<
    (TilesetLayers, Vec<Option<u16>>),
    BuildTilemapError,
>)
    requires
        layer_fits(layer),
        tiles_fit(layer),
        source.block_copy_size matches Some(n) ==> 1 <= n <= 16,
    ensures
        layer.tileset_rel_path is None <==> (r matches Err(BuildTilemapError::PathNotFound)),
        layer.tileset_rel_path is Some && source.px_bytes() is None ==> (r matches Err(
            BuildTilemapError::Format(e),
        ) && e.0 == source.format),
        layer.tileset_rel_path is Some && source.px_bytes() is Some ==> (r is Ok <==> tiles_copyable(
            layer,
            source,
        )),
        r matches Err(BuildTilemapError::AddTile { offset, error }) ==> exists|k: int|
            0 <= k < layer_tiles(layer).len() && offset == source_offset(
                #[trigger] layer_tiles(layer)[k],
            ),
        r matches Ok((layers, data)) ==> is_tilemap_of(layer, source, layers, data@),
{
    if layer.tileset_rel_path.is_none() {
        return Err(BuildTilemapError::PathNotFound);
    }
    let tiles: &Vec<LdtkTile> = if layer.grid_tiles.len() == 0 {
        &layer.auto_layer_tiles
    } else {
        &layer.grid_tiles
    };
    let ghost ts = tiles@;
    assert(ts == layer_tiles(layer));
    let tile_size = layer.grid_size as u32;
    let mut builder = match TilesetImageBuilder::from_block_info(
        UVec2 { x: tile_size, y: tile_size },
        source.format,
        source.block_dims,
        source.block_copy_size,
    ) {
        Ok(b) => b,
        Err(e) => {
            return Err(BuildTilemapError::Format(e));
        },
    };
    let ghost px = builder.px_bytes();
    let src_data: Option<&[u8]> = match &source.data {
        Some(d) => Some(d.as_slice()),
        None => None,
    };
    let ghost bytes_of = |v: Seq<u8>| tileset_bytes(ts, v, source.width, px, tile_size);
    proof {
        lemma_first_use_ids(ts);
        assert(ts.subrange(0, 0).len() == 0);
    }
    let mut ids = tile_ids_new();
    let mut k: usize = 0;
    while k < tiles.len()
        invariant
            ts == tiles@,
            ts == layer_tiles(layer),
            layer_fits(layer),
            tiles_fit(layer),
            layer.tileset_rel_path is Some,
            source.px_bytes() == Some(px as usize),
            builder.wf(),
            builder.px_bytes() == px,
            builder.spec_format() == source.format,
            builder.spec_tile_size() == (UVec2 { x: tile_size, y: tile_size }),
            tile_size == layer.grid_size,
            src_data is Some <==> source.data is Some,
            src_data is Some ==> src_data.unwrap()@ == source.data.unwrap()@,
            k <= ts.len(),
            forall|t: i64|
                #[trigger] tile_ids(ids).contains_key(t) <==> first_use(ts.subrange(0, k as int)).0.contains_key(t),
            forall|t: i64|
                #[trigger] first_use(ts.subrange(0, k as int)).0.contains_key(t) ==> tile_ids(ids)[t]
                    as nat == first_use(ts.subrange(0, k as int)).0[t],
            builder.tile_count() == first_use(ts.subrange(0, k as int)).1,
            source.data is Some ==> builder.bytes() == tileset_bytes(
                ts.subrange(0, k as int),
                source.data.unwrap()@,
                source.width,
                px,
                tile_size,
            ),
            source.data is None ==> builder.tile_count() == 0,
            forall|j: int|
                0 <= j < k && #[trigger] is_first_use(ts, j) ==> {
                    &&& source.data is Some
                    &&& tile_end(
                        UVec2 { x: tile_size, y: tile_size },
                        source_offset(ts[j]),
                        source.width,
                        px,
                    ) <= source.data.unwrap()@.len()
                },
        decreases ts.len() - k,
    {
        let tile = tiles[k];
        let offset = UVec2 { x: tile.src.0 as u32, y: tile.src.1 as u32 };
        let ghost sub = ts.subrange(0, k as int);
        let ghost next = ts.subrange(0, k + 1);
        proof {
            assert(next.drop_last() == sub);
            assert(next.last() == tile);
            assert(offset == source_offset(tile));
        }
        if tile_ids_get(&ids, tile.t).is_none() {
            proof {
                assert(is_first_use(ts, k as int));
                lemma_first_use_count_grows(ts, k + 1);
                let n = builder.tile_count() as int;
                let tb = builder.tile_bytes();
                let g = layer.grid_size as int;
                assert(tb <= g * g * 16) by (nonlinear_arith)
                    requires
                        tb == g * g * builder.px_bytes(),
                        builder.px_bytes() <= 16,
                        g > 0,
                ;
                assert(n * tb + tb <= (first_use(ts).1 + 1) * (g * g * 16)) by (nonlinear_arith)
                    requires
                        n + 1 <= first_use(ts).1,
                        0 <= tb <= g * g * 16,
                ;
            }
            match builder.add_tile_bytes(source.format, source.width, src_data, offset) {
                Ok(id) => {
                    tile_ids_insert(&mut ids, tile.t, id);
                },
                Err(error) => {
                    proof {
                        assert(is_first_use(ts, k as int));
                        assert(!tiles_copyable(layer, source));
                        assert(offset == source_offset(layer_tiles(layer)[k as int]));
                    }
                    return Err(BuildTilemapError::AddTile { offset, error });
                },
            }
        }
        proof {
            assert forall|j: int| 0 <= j < k + 1 && #[trigger] is_first_use(ts, j) implies {
                &&& source.data is Some
                &&& tile_end(
                    UVec2 { x: tile_size, y: tile_size },
                    source_offset(ts[j]),
                    source.width,
                    px,
                ) <= source.data.unwrap()@.len()
            } by {}
        }
        k += 1;
    }
    proof {
        assert(ts.subrange(0, ts.len() as int) == ts);
        lemma_first_use_ids(ts);
    }
    let ghost m = first_use(ts).0;
    let w = layer.c_wid as usize;
    let h = layer.c_hei as usize;
    assert(w * h == layer.c_wid * layer.c_hei);
    let n = w * h;
    let mut tile_data: Vec<Option<u16>> = Vec::new();
    let mut i: usize = 0;
    while i < n
        invariant
            i <= n,
            tile_data@ == Seq::new(i as nat, |j: int| None::<u16>),
        decreases n - i,
    {
        tile_data.push(None);
        proof {
            assert(Seq::new((i + 1) as nat, |j: int| None::<u16>) == Seq::new(
                i as nat,
                |j: int| None::<u16>,
            ).push(None));
        }
        i += 1;
    }
    proof {
        assert(tile_data@ =~= laid_out(layer, ts.subrange(0, 0), m, n as nat));
    }
    let mut k: usize = 0;
    while k < tiles.len()
        invariant
            ts == tiles@,
            ts == layer_tiles(layer),
            layer_fits(layer),
            tiles_fit(layer),
            n == layer.c_wid * layer.c_hei,
            k <= ts.len(),
            m == first_use(ts).0,
            forall|t: i64| #[trigger] tile_ids(ids).contains_key(t) <==> m.contains_key(t),
            forall|t: i64| #[trigger] m.contains_key(t) ==> tile_ids(ids)[t] as nat == m[t],
            forall|t: i64| #[trigger] m.contains_key(t) ==> m[t] < first_use(ts).1,
            forall|j: int| 0 <= j < ts.len() ==> m.contains_key(#[trigger] ts[j].t),
            tile_data@ == laid_out(layer, ts.subrange(0, k as int), m, n as nat),
            tile_data@.len() == n,
        decreases ts.len() - k,
    {
        let tile = tiles[k];
        let ghost sub = ts.subrange(0, k as int);
        let ghost next = ts.subrange(0, k + 1);
        proof {
            assert(next.drop_last() == sub);
            assert(next.last() == tile);
            assert(m.contains_key(ts[k as int].t));
        }
        assert(0 <= tile.px.0 && 0 <= tile.px.1 && tile_slot(layer, tile) < n);
        assert(0 <= layer.c_wid * tile.px.1 <= 0x7fff_ffff_ffff_ffff * 0x7fff_ffff_ffff_ffff) by (
        nonlinear_arith)
            requires
                0 <= layer.c_wid <= 0x7fff_ffff_ffff_ffff,
                0 <= tile.px.1 <= 0x7fff_ffff_ffff_ffff,
        ;
        let ghost sub0 = ts.subrange(0, k as int);
        proof {
            assert forall|j: int| 0 <= j < sub0.len() implies 0 <= #[trigger] tile_slot(layer, sub0[j])
                < n by {
                assert(sub0[j] == ts[j]);
                assert(0 <= layer.c_wid * ts[j].px.1) by (nonlinear_arith)
                    requires
                        0 <= layer.c_wid,
                        0 <= ts[j].px.1,
                ;
            }
            lemma_laid_out_len(layer, sub0, m, n as nat);
        }
        let num: i128 = tile.px.0 as i128 + layer.c_wid as i128 * tile.px.1 as i128;
        let slot = (num / layer.grid_size as i128) as usize;
        let id = tile_ids_get(&ids, tile.t).unwrap();
        proof {
            assert(id as nat == m[tile.t]);
            assert forall|j: int| 0 <= j < sub.len() implies 0 <= #[trigger] tile_slot(layer, sub[j])
                < n by {
                assert(sub[j] == ts[j]);
                assert(0 <= layer.c_wid * ts[j].px.1) by (nonlinear_arith)
                    requires
                        0 <= layer.c_wid,
                        0 <= ts[j].px.1,
                ;
            }
            lemma_laid_out_len(layer, sub, m, n as nat);
        }
        tile_data.set(slot, Some(id));
        k += 1;
    }
    let ghost laid = tile_data@;
    proof {
        assert(ts.subrange(0, ts.len() as int) == ts);
    }
    flip_rows(&mut tile_data, w, h);
    proof {
        let nt = builder.tile_count() as int;
        let tb = builder.tile_bytes();
        let g = layer.grid_size as int;
        assert(tb <= g * g * 16) by (nonlinear_arith)
            requires
                tb == g * g * builder.px_bytes(),
                builder.px_bytes() <= 16,
                g > 0,
        ;
        assert(nt * tb + tb <= (first_use(ts).1 + 1) * (g * g * 16)) by (nonlinear_arith)
            requires
                nt <= first_use(ts).1,
                0 <= tb <= g * g * 16,
        ;
        if source.data is None {
            assert(first_use(ts).1 == 0);
            assert(tileset_bytes(ts, Seq::empty(), source.width, px, tile_size).len() == 0) by {
                lemma_no_first_use(ts, Seq::empty(), source.width, px, tile_size);
            }
        }
    }
    let layers = builder.finish();
    Ok((layers, tile_data))
}

proof fn lemma_laid_out_len(layer: &LdtkLayer, tiles: Seq<LdtkTile>, ids: Map<i64, nat>, n: nat)
    requires
        forall|k: int| 0 <= k < tiles.len() ==> 0 <= #[trigger] tile_slot(layer, tiles[k]) < n,
    ensures
        laid_out(layer, tiles, ids, n).len() == n,
    decreases tiles.len(),
{
    if tiles.len() > 0 {
        lemma_laid_out_len(layer, tiles.drop_last(), ids, n);
        assert(laid_out(layer, tiles, ids, n) == laid_out(layer, tiles.drop_last(), ids, n).update(
            tile_slot(layer, tiles.last()),
            Some(ids[tiles.last().t] as u16),
        ));
    }
}

proof fn lemma_no_first_use(ts: Seq<LdtkTile>, src: Seq<u8>, width: u32, px: int, size: u32)
    requires
        first_use(ts).1 == 0,
    ensures
        tileset_bytes(ts, src, width, px, size) == Seq::<u8>::empty(),
    decreases ts.len(),
{
    if ts.len() > 0 {
        let (m, n) = first_use(ts.drop_last());
        lemma_no_first_use(ts.drop_last(), src, width, px, size);
    }
}

/// An assembled level.
pub struct Level {
    pub name: String,
    pub grid_size: UVec2,
    pub grid_offset: IVec2,
    pub player_spawn: IVec2,
    pub enemy_spawns: Vec<EnemySpawn>,
    pub terrain_tileset: TilesetLayers,
    pub terrain_tiledata: Vec<Option<u16>>,
    pub terrain_colliders: Vec<LevelCollider>,
}

/// An enemy to spawn: its label in the enemy manifest and its cell.
pub struct EnemySpawn {
    pub label: String,
    pub position: IVec2,
}

/// The label and cell of each spawn.
pub open spec fn spawn_views(spawns: Seq<EnemySpawn>) -> Seq<(Seq<char>, IVec2)> {
    spawns.map_values(|s: EnemySpawn| (s.label@, s.position))
}

/// The enemy spawns of an entities layer `c_hei` cells high: every entity but the player spawn,
/// in order, labelled by its identifier.
pub open spec fn enemy_spawns_of(entities: Seq<LdtkEntity>, c_hei: i64) -> Seq<(Seq<char>, IVec2)>
    decreases entities.len(),
{
    if entities.len() == 0 {
        Seq::empty()
    } else {
        let prev = enemy_spawns_of(entities.drop_last(), c_hei);
        let e = entities.last();
        if e.identifier@ == "Player_Spawn"@ {
            prev
        } else {
            prev.push((e.identifier@, spawn_cell(e.grid, c_hei)))
        }
    }
}

/// The spawns whose label is among `labels`, in order.
pub open spec fn known_spawns_of(spawns: Seq<(Seq<char>, IVec2)>, labels: Seq<Seq<char>>) -> Seq<
    (Seq<char>, IVec2),
>
    decreases spawns.len(),
{
    if spawns.len() == 0 {
        Seq::empty()
    } else {
        let prev = known_spawns_of(spawns.drop_last(), labels);
        if labels.contains(spawns.last().0) {
            prev.push(spawns.last())
        } else {
            prev
        }
    }
}

/// The enemy spawns of an entities layer: every entity but the player spawn, labelled by its
/// identifier, at its cell counted from the bottom row.
pub fn collect_enemy_spawns(entities: &LdtkLayer) -> (r: Vec<EnemySpawn>)
    ensures
        spawn_views(r@) == enemy_spawns_of(entities.entity_instances@, entities.c_hei),
{
    let player = "Player_Spawn".to_owned();
    let ents = &entities.entity_instances;
    let mut out: Vec<EnemySpawn> = Vec::new();
    let mut k: usize = 0;
    while k < ents.len()
        invariant
            player@ == "Player_Spawn"@,
            ents@ == entities.entity_instances@,
            k <= ents@.len(),
            spawn_views(out@) == enemy_spawns_of(ents@.subrange(0, k as int), entities.c_hei),
        decreases ents@.len() - k,
    {
        let e = &ents[k];
        let ghost sub = ents@.subrange(0, k + 1);
        proof {
            assert(sub.drop_last() == ents@.subrange(0, k as int));
            assert(sub.last() == *e);
        }
        if e.identifier != player {
            #[verifier::truncate]
            let x = e.grid.0 as i32;
            #[verifier::truncate]
            let y = (entities.c_hei as i128 - e.grid.1 as i128 - 1) as i32;
            let ghost before = out@;
            out.push(EnemySpawn { label: e.identifier.clone(), position: IVec2 { x, y } });
            proof {
                assert(spawn_views(out@) =~= spawn_views(before).push(
                    (e.identifier@, spawn_cell(e.grid, entities.c_hei)),
                ));
            }
        }
        k += 1;
    }
    proof {
        assert(ents@.subrange(0, ents@.len() as int) == ents@);
    }
    out
}

/// The spawns whose label is among `labels`, the labels of the enemies the game knows; the
/// others are left out.
pub fn known_spawns(spawns: &Vec<EnemySpawn>, labels: &Vec<String>) -> (r: Vec<EnemySpawn>)
    ensures
        spawn_views(r@) == known_spawns_of(
            spawn_views(spawns@),
            labels@.map_values(|l: String| l@),
        ),
{
    let ghost lv = labels@.map_values(|l: String| l@);
    let mut out: Vec<EnemySpawn> = Vec::new();
    let mut k: usize = 0;
    while k < spawns.len()
        invariant
            lv == labels@.map_values(|l: String| l@),
            k <= spawns@.len(),
            spawn_views(out@) == known_spawns_of(spawn_views(spawns@.subrange(0, k as int)), lv),
        decreases spawns@.len() - k,
    {
        let s = &spawns[k];
        let mut known = false;
        let mut j: usize = 0;
        while j < labels.len()
            invariant
                lv == labels@.map_values(|l: String| l@),
                j <= labels@.len(),
                known <==> exists|i: int| 0 <= i < j && lv[i] == s.label@,
            decreases labels@.len() - j,
        {
            if labels[j] == s.label {
                known = true;
            }
            proof {
                assert(lv[j as int] == labels@[j as int]@);
                if known {
                    if labels@[j as int]@ == s.label@ {
                        assert(0 <= j < j + 1 && lv[j as int] == s.label@);
                    }
                }
            }
            j += 1;
        }
        let ghost sub = spawn_views(spawns@.subrange(0, k + 1));
        proof {
            assert(sub.drop_last() =~= spawn_views(spawns@.subrange(0, k as int)));
            assert(sub.last() == (s.label@, s.position));
            if known {
                let i = choose|i: int| 0 <= i < j && lv[i] == s.label@;
                assert(lv.contains(s.label@));
            } else {
                assert(!lv.contains(s.label@));
            }
        }
        if known {
            let ghost before = out@;
            out.push(EnemySpawn { label: s.label.clone(), position: s.position });
            proof {
                assert(spawn_views(out@) =~= spawn_views(before).push((s.label@, s.position)));
            }
        }
        k += 1;
    }
    proof {
        assert(spawns@.subrange(0, spawns@.len() as int) == spawns@);
    }
    out
}

/// Why a level could not be assembled.
#[derive(Debug)]
pub enum LevelError {
    /// A required layer is absent.
    MissingLayer { name: String },
    /// A required entity is absent.
    MissingEntity { name: String },
    /// The terrain layer's cell values do not fill its extent.
    InvalidTerrainGrid,
    /// A tile of the tiles layer lies outside the layer, or the layer is too large.
    InvalidTileLayer,
    /// The tileset could not be built.
    Tilemap(BuildTilemapError),
}

impl Level {
    /// The rectangle of cells the level covers in the world.
    pub open spec fn spec_bounds(&self) -> IRect {
        IRect {
            min: self.grid_offset,
            max: IVec2 {
                x: (self.grid_offset.x + self.grid_size.x) as i32,
                y: (self.grid_offset.y + self.grid_size.y) as i32,
            },
        }
    }

    /// The rectangle of cells the level covers in the world.
    pub fn bounds(&self) -> (r: IRect)
        requires
            self.grid_offset.x + self.grid_size.x <= i32::MAX,
            self.grid_offset.y + self.grid_size.y <= i32::MAX,
        ensures
            r == self.spec_bounds(),
    {
        IRect {
            min: self.grid_offset,
            max: IVec2 {
                x: (self.grid_offset.x as i64 + self.grid_size.x as i64) as i32,
                y: (self.grid_offset.y as i64 + self.grid_size.y as i64) as i32,
            },
        }
    }
}

/// The level's layer named `name`, if any.
pub open spec fn named_layer(level: &LdtkLevel, name: Seq<char>) -> Option<LdtkLayer> {
    match first_layer_named(layers_of(level), name) {
        Some(i) => Some(layers_of(level)[i]),
        None => None,
    }
}

/// The layer's entity named `name`, if any.
pub open spec fn named_entity(layer: LdtkLayer, name: Seq<char>) -> Option<LdtkEntity> {
    match first_entity_named(layer.entity_instances@, name) {
        Some(i) => Some(layer.entity_instances@[i]),
        None => None,
    }
}

/// The spawn cell of an entity of a layer `c_hei` cells high: the editor counts rows from the
/// top, the level from the bottom.
pub open spec fn spawn_cell(grid: (i64, i64), c_hei: i64) -> IVec2 {
    IVec2 { x: grid.0 as i32, y: (c_hei - grid.1 - 1) as i32 }
}

/// Every tile of the layer lands inside it, and its tileset fits memory.
pub fn tile_layer_fits(layer: &LdtkLayer) -> (r: bool)
    ensures
        r == (layer_fits(layer) && tiles_fit(layer)),
{
    let g = layer.grid_size;
    if g <= 0 || g > u32::MAX as i64 || layer.c_wid < 0 || layer.c_hei < 0 {
        return false;
    }
    if layer.c_wid as u128 > usize::MAX as u128 || layer.c_hei as u128 > usize::MAX as u128 {
        return false;
    }
    proof {
        assert(layer.c_wid * layer.c_hei <= 0x7fff_ffff_ffff_ffff * 0x7fff_ffff_ffff_ffff) by (
        nonlinear_arith)
            requires
                0 <= layer.c_wid <= 0x7fff_ffff_ffff_ffff,
                0 <= layer.c_hei <= 0x7fff_ffff_ffff_ffff,
        ;
    }
    let area: u128 = layer.c_wid as u128 * layer.c_hei as u128;
    if area > usize::MAX as u128 {
        return false;
    }
    let tiles: &Vec<LdtkTile> = if layer.grid_tiles.len() == 0 {
        &layer.auto_layer_tiles
    } else {
        &layer.grid_tiles
    };
    let ghost ts = tiles@;
    let mut ids = tile_ids_new();
    let mut count: usize = 0;
    let mut k: usize = 0;
    proof {
        assert(ts.subrange(0, 0).len() == 0);
    }
    while k < tiles.len()
        invariant
            tiles@ == layer_tiles(layer),
            ts == tiles@,
            0 < g <= u32::MAX,
            g == layer.grid_size,
            area == layer.c_wid * layer.c_hei,
            0 <= layer.c_wid,
            k <= tiles@.len(),
            count <= k,
            count == first_use(ts.subrange(0, k as int)).1,
            forall|t: i64|
                #[trigger] tile_ids(ids).contains_key(t) <==> first_use(ts.subrange(0, k as int)).0.contains_key(t),
            forall|j: int|
                0 <= j < k ==> 0 <= (#[trigger] tiles@[j]).px.0 && 0 <= tiles@[j].px.1
                    && tile_slot(layer, tiles@[j]) < layer.c_wid * layer.c_hei && 0 <= tiles@[j].src.0
                    <= u32::MAX && 0 <= tiles@[j].src.1 <= u32::MAX,
        decreases tiles@.len() - k,
    {
        let tile = tiles[k];
        if tile.px.0 < 0 || tile.px.1 < 0 || tile.src.0 < 0 || tile.src.1 < 0 || tile.src.0
            > u32::MAX as i64 || tile.src.1 > u32::MAX as i64 {
            return false;
        }
        proof {
            assert(0 <= layer.c_wid * tile.px.1 <= 0x7fff_ffff_ffff_ffff * 0x7fff_ffff_ffff_ffff)
                by (nonlinear_arith)
                requires
                    0 <= layer.c_wid <= 0x7fff_ffff_ffff_ffff,
                    0 <= tile.px.1 <= 0x7fff_ffff_ffff_ffff,
            ;
        }
        let num: i128 = tile.px.0 as i128 + layer.c_wid as i128 * tile.px.1 as i128;
        let slot: i128 = num / g as i128;
        if slot as u128 >= area {
            return false;
        }
        let ghost next = ts.subrange(0, k + 1);
        proof {
            assert(next.drop_last() == ts.subrange(0, k as int));
            assert(next.last() == tile);
        }
        if tile_ids_get(&ids, tile.t).is_none() {
            tile_ids_insert(&mut ids, tile.t, 0);
            count += 1;
        }
        k += 1;
    }
    proof {
        assert(ts.subrange(0, ts.len() as int) == ts);
    }
    if count >= u16::MAX as usize {
        return false;
    }
    proof {
        assert((count + 1) * (g * g * 16) <= 65536 * (0xffff_ffff * 0xffff_ffff * 16)) by (
        nonlinear_arith)
            requires
                count < 65535,
                0 < g <= 0xffff_ffff,
        ;
        assert(g * g <= 0xffff_ffff * 0xffff_ffff) by (nonlinear_arith)
            requires
                0 < g <= 0xffff_ffff,
        ;
    }
    let bytes: u128 = (count as u128 + 1) * (g as u128 * g as u128 * 16);
    if bytes > usize::MAX as u128 {
        return false;
    }
    true
}

/// The level has an `Entities` layer holding a `Player_Spawn` entity.
pub open spec fn has_player_spawn(ldtk: &LdtkLevel) -> bool {
    named_layer(ldtk, "Entities"@) is Some && named_entity(
        named_layer(ldtk, "Entities"@).unwrap(),
        "Player_Spawn"@,
    ) is Some
}

/// The terrain layer's extent fits `i32` and its cell values fill it.
pub open spec fn terrain_fits(layer: LdtkLayer) -> bool {
    &&& 0 <= layer.c_wid <= i32::MAX
    &&& 0 <= layer.c_hei <= i32::MAX
    &&& layer.c_wid * layer.c_hei == layer.int_grid_csv@.len()
}

/// The level has a well-formed `Terrain` layer.
pub open spec fn has_terrain(ldtk: &LdtkLevel) -> bool {
    named_layer(ldtk, "Terrain"@) is Some && terrain_fits(named_layer(ldtk, "Terrain"@).unwrap())
}

/// The level has a `TerrainTiles` layer whose tiles can be laid out.
pub open spec fn has_tiles(ldtk: &LdtkLevel) -> bool {
    named_layer(ldtk, "TerrainTiles"@) is Some && layer_fits(
        &named_layer(ldtk, "TerrainTiles"@).unwrap(),
    ) && tiles_fit(&named_layer(ldtk, "TerrainTiles"@).unwrap())
}

/// The `TerrainTiles` layer of a level that has everything a level needs before its tileset:
/// fails, in the order `load_level` checks them, on a missing `Entities` layer, `Player_Spawn`
/// entity or `Terrain` layer, a terrain layer its values do not fill, or a missing
/// `TerrainTiles` layer.
pub fn level_tiles_layer(ldtk: &LdtkLevel) -> (r: Result<&LdtkLayer, LevelError>)
    ensures
        named_layer(ldtk, "Entities"@) is None ==> (r matches Err(LevelError::MissingLayer { name })
            && name@ == "Entities"@),
        named_layer(ldtk, "Entities"@) is Some && !has_player_spawn(ldtk) ==> (r matches Err(
            LevelError::MissingEntity { name },
        ) && name@ == "Player_Spawn"@),
        has_player_spawn(ldtk) && named_layer(ldtk, "Terrain"@) is None ==> (r matches Err(
            LevelError::MissingLayer { name },
        ) && name@ == "Terrain"@),
        has_player_spawn(ldtk) && named_layer(ldtk, "Terrain"@) is Some && !terrain_fits(
            named_layer(ldtk, "Terrain"@).unwrap(),
        ) ==> (r matches Err(LevelError::InvalidTerrainGrid)),
        has_player_spawn(ldtk) && has_terrain(ldtk) && named_layer(ldtk, "TerrainTiles"@) is None
            ==> (r matches Err(LevelError::MissingLayer { name }) && name@ == "TerrainTiles"@),
        has_player_spawn(ldtk) && has_terrain(ldtk) && named_layer(ldtk, "TerrainTiles"@) is Some
            ==> r == Ok::<&LdtkLayer, LevelError>(&named_layer(ldtk, "TerrainTiles"@).unwrap()),
{
    let entities = match get_named_layer(ldtk, "Entities") {
        Some(l) => l,
        None => {
            return Err(LevelError::MissingLayer { name: "Entities".to_owned() });
        },
    };
    if get_named_entity(entities, "Player_Spawn").is_none() {
        return Err(LevelError::MissingEntity { name: "Player_Spawn".to_owned() });
    }
    let terrain = match get_named_layer(ldtk, "Terrain") {
        Some(l) => l,
        None => {
            return Err(LevelError::MissingLayer { name: "Terrain".to_owned() });
        },
    };
    if terrain.c_wid < 0 || terrain.c_wid > i32::MAX as i64 || terrain.c_hei < 0 || terrain.c_hei
        > i32::MAX as i64 {
        return Err(LevelError::InvalidTerrainGrid);
    }
    proof {
        assert(terrain.c_wid * terrain.c_hei <= 0x7fff_ffff * 0x7fff_ffff) by (nonlinear_arith)
            requires
                0 <= terrain.c_wid <= 0x7fff_ffff,
                0 <= terrain.c_hei <= 0x7fff_ffff,
        ;
    }
    if terrain.c_wid as u64 * terrain.c_hei as u64 != terrain.int_grid_csv.len() as u64 {
        return Err(LevelError::InvalidTerrainGrid);
    }
    match get_named_layer(ldtk, "TerrainTiles") {
        Some(l) => Ok(l),
        None => Err(LevelError::MissingLayer { name: "TerrainTiles".to_owned() }),
    }
}

/// Assembles a level from the editor's level data and the terrain tileset image: the player
/// spawn from the `Player_Spawn` entity of the `Entities` layer, colliders reduced from the
/// `Terrain` layer's cell values (nonzero is solid), and the tileset and tile layout of the
/// `TerrainTiles` layer.
pub fn load_level(ldtk: &LdtkLevel, tileset: &TilesetSource) -> (r: Result<Level, LevelError>)
    requires
        tileset.block_copy_size matches Some(n) ==> 1 <= n <= 16,
    ensures
        named_layer(ldtk, "Entities"@) is None ==> (r matches Err(LevelError::MissingLayer { name })
            && name@ == "Entities"@),
        named_layer(ldtk, "Entities"@) is Some && !has_player_spawn(ldtk) ==> (r matches Err(
            LevelError::MissingEntity { name },
        ) && name@ == "Player_Spawn"@),
        has_player_spawn(ldtk) && named_layer(ldtk, "Terrain"@) is None ==> (r matches Err(
            LevelError::MissingLayer { name },
        ) && name@ == "Terrain"@),
        has_player_spawn(ldtk) && named_layer(ldtk, "Terrain"@) is Some && !terrain_fits(
            named_layer(ldtk, "Terrain"@).unwrap(),
        ) ==> (r matches Err(LevelError::InvalidTerrainGrid)),
        has_player_spawn(ldtk) && has_terrain(ldtk) && named_layer(ldtk, "TerrainTiles"@) is None
            ==> (r matches Err(LevelError::MissingLayer { name }) && name@ == "TerrainTiles"@),
        has_player_spawn(ldtk) && has_terrain(ldtk) && named_layer(ldtk, "TerrainTiles"@) is Some
            && !(layer_fits(&named_layer(ldtk, "TerrainTiles"@).unwrap()) && tiles_fit(
            &named_layer(ldtk, "TerrainTiles"@).unwrap(),
        )) ==> (r matches Err(LevelError::InvalidTileLayer)),
        has_player_spawn(ldtk) && has_terrain(ldtk) && has_tiles(ldtk) ==> (r is Ok || r matches Err(
            LevelError::Tilemap(_),
        )),
        has_player_spawn(ldtk) && has_terrain(ldtk) && has_tiles(ldtk) && named_layer(
            ldtk,
            "TerrainTiles"@,
        ).unwrap().tileset_rel_path is None ==> (r matches Err(
            LevelError::Tilemap(BuildTilemapError::PathNotFound),
        )),
        r is Ok ==> has_player_spawn(ldtk) && has_terrain(ldtk) && has_tiles(ldtk),
        has_player_spawn(ldtk) && has_terrain(ldtk) && has_tiles(ldtk) ==> {
            let tiles = named_layer(ldtk, "TerrainTiles"@).unwrap();
            tiles.tileset_rel_path is Some && tileset.px_bytes() is Some ==> (r is Ok
                <==> tiles_copyable(&tiles, tileset))
        },
        r matches Ok(level) ==> {
            let entities = named_layer(ldtk, "Entities"@).unwrap();
            let spawn = named_entity(entities, "Player_Spawn"@).unwrap();
            let terrain = named_layer(ldtk, "Terrain"@).unwrap();
            let tiles = named_layer(ldtk, "TerrainTiles"@).unwrap();
            &&& named_layer(ldtk, "Entities"@) is Some
            &&& named_entity(entities, "Player_Spawn"@) is Some
            &&& named_layer(ldtk, "Terrain"@) is Some
            &&& named_layer(ldtk, "TerrainTiles"@) is Some
            &&& level.name@ == ldtk.identifier@
            &&& level.grid_offset == (IVec2 {
                x: ldtk.world_x as i32,
                y: (0 - ldtk.world_y) as i32,
            })
            &&& level.player_spawn == spawn_cell(spawn.grid, entities.c_hei)
            &&& spawn_views(level.enemy_spawns@) == enemy_spawns_of(
                entities.entity_instances@,
                entities.c_hei,
            )
            &&& level.grid_size == (UVec2 { x: terrain.c_wid as u32, y: terrain.c_hei as u32 })
            &&& level.terrain_tiledata@.len() == tiles.c_wid * tiles.c_hei
            &&& is_tilemap_of(&tiles, tileset, level.terrain_tileset, level.terrain_tiledata@)
            &&& exists|g: LevelCollisionBuilder|
                {
                    &&& g.wf()
                    &&& g.spec_bounds() == (IRect {
                        min: IVec2 { x: 0, y: 0 },
                        max: IVec2 { x: terrain.c_wid as i32, y: terrain.c_hei as i32 },
                    })
                    &&& g.cells() == terrain.int_grid_csv@.map_values(|v: i64| v != 0)
                    &&& g.is_stack_reduction(level.terrain_colliders@)
                    &&& colliders_ordered(level.terrain_colliders@)
                }
        },
{
    #[verifier::truncate]
    let ox = ldtk.world_x as i32;
    #[verifier::truncate]
    let oy = (0 - ldtk.world_y as i128) as i32;
    let grid_offset = IVec2 { x: ox, y: oy };
    let entities = match get_named_layer(ldtk, "Entities") {
        Some(l) => l,
        None => {
            return Err(LevelError::MissingLayer { name: "Entities".to_owned() });
        },
    };
    let spawn = match get_named_entity(entities, "Player_Spawn") {
        Some(e) => e,
        None => {
            return Err(LevelError::MissingEntity { name: "Player_Spawn".to_owned() });
        },
    };
    #[verifier::truncate]
    let sx = spawn.grid.0 as i32;
    #[verifier::truncate]
    let sy = (entities.c_hei as i128 - spawn.grid.1 as i128 - 1) as i32;
    let player_spawn = IVec2 { x: sx, y: sy };
    let enemy_spawns = collect_enemy_spawns(entities);
    let terrain = match get_named_layer(ldtk, "Terrain") {
        Some(l) => l,
        None => {
            return Err(LevelError::MissingLayer { name: "Terrain".to_owned() });
        },
    };
    if terrain.c_wid < 0 || terrain.c_wid > i32::MAX as i64 || terrain.c_hei < 0 || terrain.c_hei
        > i32::MAX as i64 {
        return Err(LevelError::InvalidTerrainGrid);
    }
    let w = terrain.c_wid as u32;
    let h = terrain.c_hei as u32;
    proof {
        assert(w * h <= 0x7fff_ffff * 0x7fff_ffff) by (nonlinear_arith)
            requires
                w <= 0x7fff_ffff,
                h <= 0x7fff_ffff,
        ;
    }
    if w as u64 * h as u64 != terrain.int_grid_csv.len() as u64 {
        return Err(LevelError::InvalidTerrainGrid);
    }
    let mut cells: Vec<bool> = Vec::new();
    let mut k: usize = 0;
    while k < terrain.int_grid_csv.len()
        invariant
            k <= terrain.int_grid_csv@.len(),
            cells@ == terrain.int_grid_csv@.subrange(0, k as int).map_values(|v: i64| v != 0),
        decreases terrain.int_grid_csv@.len() - k,
    {
        cells.push(terrain.int_grid_csv[k] != 0);
        proof {
            assert(terrain.int_grid_csv@.subrange(0, k + 1).map_values(|v: i64| v != 0)
                =~= terrain.int_grid_csv@.subrange(0, k as int).map_values(|v: i64| v != 0).push(
                terrain.int_grid_csv@[k as int] != 0,
            ));
        }
        k += 1;
    }
    assert(terrain.int_grid_csv@.subrange(0, terrain.int_grid_csv@.len() as int)
        == terrain.int_grid_csv@);
    let grid_size = UVec2 { x: w, y: h };
    let grid = LevelCollisionBuilder::from_grid(grid_size, cells);
    let terrain_colliders = grid.build();
    let tiles_layer = match get_named_layer(ldtk, "TerrainTiles") {
        Some(l) => l,
        None => {
            return Err(LevelError::MissingLayer { name: "TerrainTiles".to_owned() });
        },
    };
    if !tile_layer_fits(tiles_layer) {
        return Err(LevelError::InvalidTileLayer);
    }
    let (terrain_tileset, terrain_tiledata) = match build_tilemap_from_layer(tiles_layer, tileset) {
        Ok(t) => t,
        Err(e) => {
            return Err(LevelError::Tilemap(e));
        },
    };
    let level = Level {
        name: ldtk.identifier.clone(),
        grid_size,
        grid_offset,
        player_spawn,
        enemy_spawns,
        terrain_tileset,
        terrain_tiledata,
        terrain_colliders,
    };
    proof {
        assert(grid.is_reduction(level.terrain_colliders@));
    }
    Ok(level)
}

/// Position of cell `i` of a `w`-wide, `h`-high row-major layout once its rows are reversed.
pub open spec fn flipped(i: int, w: int, h: int) -> int {
    (h - 1 - i / w) * w + i % w
}

/// Reverses the order of the `h` rows of the `w`-wide row-major layout `data`, in place.
pub fn flip_rows(data: &mut Vec<Option<u16>>, w: usize, h: usize)
    requires
        old(data)@.len() == w * h,
    ensures
        final(data)@.len() == old(data)@.len(),
        forall|y: int, x: int|
            0 <= y < h && 0 <= x < w ==> #[trigger] final(data)@[y * w + x] == old(data)@[(h - 1
                - y) * w + x],
{
    let ghost orig = data@;
    let n = data.len();
    let mut r: usize = 0;
    while r < h / 2
        invariant
            n == w * h,
            data@.len() == orig.len(),
            orig.len() == w * h,
            r <= h / 2,
            forall|y: int, x: int|
                0 <= y < h && 0 <= x < w ==> #[trigger] data@[y * w + x] == if y < r || h - 1 - y
                    < r {
                    orig[(h - 1 - y) * w + x]
                } else {
                    orig[y * w + x]
                },
        decreases h / 2 - r,
    {
        let mut c: usize = 0;
        let top = r;
        let bottom = h - r - 1;
        proof {
            assert(bottom * w + w <= h * w) by (nonlinear_arith)
                requires
                    bottom < h,
            ;
            assert(top * w + w <= bottom * w) by (nonlinear_arith)
                requires
                    top < bottom,
            ;
        }
        while c < w
            invariant
                n == w * h,
                data@.len() == orig.len(),
                orig.len() == w * h,
                r < h / 2,
                top == r,
                bottom == h - r - 1,
                bottom * w + w <= h * w,
                top * w + w <= bottom * w,
                c <= w,
                forall|y: int, x: int|
                    0 <= y < h && 0 <= x < w ==> #[trigger] data@[y * w + x] == if y < r || h - 1
                        - y < r || ((y == top || y == bottom) && x < c) {
                        orig[(h - 1 - y) * w + x]
                    } else {
                        orig[y * w + x]
                    },
            decreases w - c,
        {
            let i = top * w + c;
            let j = bottom * w + c;
            let ghost before = data@;
            let a = data[i];
            let b = data[j];
            data.set(i, b);
            data.set(j, a);
            proof {
                assert forall|y: int, x: int| 0 <= y < h && 0 <= x < w implies #[trigger] data@[y
                    * w + x] == if y < r || h - 1 - y < r || ((y == top || y == bottom) && x < c
                    + 1) {
                    orig[(h - 1 - y) * w + x]
                } else {
                    orig[y * w + x]
                } by {
                    lemma_cell_pos(y, x, w as int, h as int);
                    lemma_cell_pos(top as int, c as int, w as int, h as int);
                    lemma_cell_pos(bottom as int, c as int, w as int, h as int);
                    if y * w + x == i {
                        lemma_cell_unique(y, x, top as int, c as int, w as int);
                    } else if y * w + x == j {
                        lemma_cell_unique(y, x, bottom as int, c as int, w as int);
                    }
                    assert(data@[y * w + x] == if y * w + x == j {
                        a
                    } else if y * w + x == i {
                        b
                    } else {
                        before[y * w + x]
                    });
                }
            }
            c += 1;
        }
        r += 1;
    }
}

proof fn lemma_cell_pos(y: int, x: int, w: int, h: int)
    requires
        0 <= y < h,
        0 <= x < w,
    ensures
        0 <= y * w + x < w * h,
{
    assert(y * w + x < w * h) by (nonlinear_arith)
        requires
            0 <= y < h,
            0 <= x < w,
    ;
    assert(0 <= y * w) by (nonlinear_arith)
        requires
            0 <= y,
            0 <= w,
    ;
}

proof fn lemma_cell_unique(y1: int, x1: int, y2: int, x2: int, w: int)
    requires
        0 <= y1,
        0 <= y2,
        0 <= x1 < w,
        0 <= x2 < w,
        y1 * w + x1 == y2 * w + x2,
    ensures
        y1 == y2,
        x1 == x2,
{
    if y1 < y2 {
        assert(y1 * w + w <= y2 * w) by (nonlinear_arith)
            requires
                y1 < y2,
                0 <= w,
        ;
    } else if y2 < y1 {
        assert(y2 * w + w <= y1 * w) by (nonlinear_arith)
            requires
                y2 < y1,
                0 <= w,
        ;
    }
}

} // verus!
