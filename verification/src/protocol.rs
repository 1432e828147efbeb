//! The messages that cross the network, and how the server builds the map-state pair it
//! sends a client.

use vstd::prelude::*;

use crate::components::tile::TileData;
use crate::game::map::generation::MapType;
use crate::grid::coords::TriCoord;
use crate::map::pipeline::TileMap;

verus! {

/// Server to client: tiles and their terrain/biome data. With no fog of war yet, this is the
/// whole map, sent once on connect.
#[derive(Clone, Debug, PartialEq)]
pub struct TilesRevealed(pub Vec<(TriCoord, TileData)>);

/// Server to client: every placed Biome Town, plus which ones are a player's starting town
/// (`starting_towers[i]` is `PlayerSlot(i)`'s).
#[derive(Clone, Debug, PartialEq)]
pub struct BiomeTowersRevealed {
    pub towns: Vec<TriCoord>,
    pub starting_towers: Vec<TriCoord>,
}

/// Client to server (debug): reroll the map with a new random seed and send it back.
#[derive(Clone, Copy, Debug, PartialEq, Eq, Structural)]
pub struct RegenerateMap;

/// Client to server (debug): use this map type and player count from now on, and regenerate
/// the map accordingly.
#[derive(Clone, Copy, Debug, PartialEq, Eq, Structural)]
pub struct SetMapConfig {
    pub map_type: MapType,
    pub num_players: u8,
}

/// A copy of a coordinate list, element by element.
fn copy_coords(v: &Vec<TriCoord>) -> (out: Vec<TriCoord>)
    ensures
        out@ == v@,
{
    let mut out: Vec<TriCoord> = Vec::new();
    let mut i: usize = 0;
    while i < v.len()
        invariant
            i <= v.len(),
            out@ == v@.take(i as int),
        decreases v.len() - i,
    {
        out.push(v[i]);
        proof {
            assert(v@.take(i + 1) == v@.take(i as int).push(v@[i as int]));
        }
        i += 1;
    }
    proof {
        assert(v@.take(v.len() as int) == v@);
    }
    out
}

/// Both halves of the map's current state, as sent to a client: every tile with its data,
/// and the Biome Towns with the starting towers. They always go together, since a client
/// with tiles but no town list (or the reverse) cannot label the towns.
pub fn map_state_messages(map: &TileMap) -> (msgs: (TilesRevealed, BiomeTowersRevealed))
    ensures
        msgs.0.0@ == map.tiles@,
        msgs.1.towns@ == map.towns@,
        msgs.1.starting_towers@ == map.starting_towers@,
{
    let mut tiles: Vec<(TriCoord, TileData)> = Vec::new();
    let mut i: usize = 0;
    while i < map.tiles.len()
        invariant
            i <= map.tiles.len(),
            tiles@ == map.tiles@.take(i as int),
        decreases map.tiles.len() - i,
    {
        let entry = map.tiles[i];
        tiles.push(entry);
        proof {
            assert(map.tiles@.take(i + 1) == map.tiles@.take(i as int).push(map.tiles@[i as int]));
        }
        i += 1;
    }
    proof {
        assert(map.tiles@.take(map.tiles.len() as int) == map.tiles@);
    }
    let towers = BiomeTowersRevealed {
        towns: copy_coords(&map.towns),
        starting_towers: copy_coords(&map.starting_towers),
    };
    (TilesRevealed(tiles), towers)
}

} // verus!
