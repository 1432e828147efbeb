//! The first, terrain-free map generator: a hexagon of `Field` tiles.

use vstd::prelude::*;

use crate::components::tile::Terrain;
use crate::config::DEFAULT_EDGE_TILES;
use crate::grid::coords::TriCoord;
use crate::grid::hexagon::{
    edge_tiles_in_range, half_edge, hexagon_tiles, in_hexagon, strictly_sorted, HexMapError,
};

verus! {

/// The server's terrain lookup for the terrain-free generator: one entry per tile.
pub struct TileMap {
    pub tiles: Vec<(TriCoord, Terrain)>,
}

impl TileMap {
    /// A hexagonal map whose edge row has `edge_tiles` triangles, every tile `Field`.
    pub fn generate_hexagon(edge_tiles: i32) -> (r: Result<TileMap, HexMapError>)
        requires
            edge_tiles_in_range(edge_tiles as int),
        ensures
            edge_tiles < 3 ==> r == Err::<TileMap, HexMapError>(HexMapError::TooSmall(edge_tiles)),
            edge_tiles >= 3 && edge_tiles % 2 == 0 ==> r == Err::<TileMap, HexMapError>(
                HexMapError::MustBeOdd(edge_tiles),
            ),
            edge_tiles >= 3 && edge_tiles % 2 == 1 ==> r is Ok,
            r matches Ok(map) ==> {
                let m = half_edge(edge_tiles as int);
                &&& map.tiles.len() == 6 * m * m
                &&& forall|i: int| 0 <= i < map.tiles.len() ==> (#[trigger] map.tiles@[i]).1 == Terrain::Field
                &&& forall|t: TriCoord|
                    (exists|i: int| 0 <= i < map.tiles.len() && (#[trigger] map.tiles@[i]).0 == t)
                        <==> in_hexagon(m, t)
                &&& forall|i: int, j: int|
                    0 <= i < j < map.tiles.len() ==> crate::grid::coords::lex_lt(
                        #[trigger] map.tiles@[i].0,
                        #[trigger] map.tiles@[j].0,
                    )
            },
    {
        let coords = match hexagon_tiles(edge_tiles) {
            Ok(c) => c,
            Err(e) => return Err(e),
        };
        let ghost m = half_edge(edge_tiles as int);
        let mut tiles: Vec<(TriCoord, Terrain)> = Vec::new();
        let mut i: usize = 0;
        while i < coords.len()
            invariant
                i <= coords.len(),
                tiles.len() == i,
                forall|k: int| 0 <= k < i ==> #[trigger] tiles@[k] == (coords@[k], Terrain::Field),
            decreases coords.len() - i,
        {
            tiles.push((coords[i], Terrain::Field));
            i += 1;
        }
        proof {
            assert forall|t: TriCoord|
                (exists|k: int| 0 <= k < tiles.len() && (#[trigger] tiles@[k]).0 == t) <==> in_hexagon(
                    m,
                    t,
                ) by {
                if in_hexagon(m, t) {
                    assert(coords@.contains(t));
                    let k = choose|k: int| 0 <= k < coords.len() && coords@[k] == t;
                    assert(tiles@[k].0 == t);
                }
                if exists|k: int| 0 <= k < tiles.len() && (#[trigger] tiles@[k]).0 == t {
                    let k = choose|k: int| 0 <= k < tiles.len() && (#[trigger] tiles@[k]).0 == t;
                    assert(coords@[k] == t);
                    assert(coords@.contains(t));
                }
            }
            assert forall|a: int, b: int|
                0 <= a < b < tiles.len() implies crate::grid::coords::lex_lt(
                #[trigger] tiles@[a].0,
                #[trigger] tiles@[b].0,
            ) by {
                assert(strictly_sorted(coords@));
                assert(tiles@[a].0 == coords@[a] && tiles@[b].0 == coords@[b]);
            }
        }
        Ok(TileMap { tiles })
    }
}

/// How large a map the terrain-free generator builds.
#[derive(Debug, Clone, Copy, PartialEq, Eq, Structural)]
pub struct MapGenConfig {
    pub edge_tiles: i32,
}

impl Default for MapGenConfig {
    /// The default edge length.
    fn default() -> (c: MapGenConfig)
        ensures
            c.edge_tiles == DEFAULT_EDGE_TILES,
    {
        MapGenConfig { edge_tiles: DEFAULT_EDGE_TILES }
    }
}

} // verus!
