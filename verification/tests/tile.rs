use seamless_tiler::{
    D4, D6, Direction, EdgeStrip, EqualityMatcher, HexDirection, OrientedTileId, QuarterTurns,
    SixthTurns, SocketMap, SocketMatcher, SquareDirection, Tile, TileId, TileSet,
};

fn labeled_tile() -> Tile<&'static str, SquareDirection, char> {
    Tile::new(
        "road",
        SocketMap::from_fn(|direction| match direction {
            SquareDirection::North => 'n',
            SquareDirection::East => 'e',
            SquareDirection::South => 's',
            SquareDirection::West => 'w',
        }),
    )
}

#[test]
fn socket_map_is_complete_and_direction_indexed() {
    let sockets = labeled_tile().sockets;
    assert_eq!(sockets.len(), 4);
    assert_eq!(sockets[SquareDirection::North], 'n');
    assert_eq!(sockets[SquareDirection::West], 'w');
}

#[test]
fn tile_ids_are_stable_and_dense() {
    let mut tiles = TileSet::new();
    let first = tiles.insert(labeled_tile());
    let second = tiles.insert(labeled_tile());
    assert_eq!(first.index(), 0);
    assert_eq!(second.index(), 1);
    assert_eq!(tiles.get(first).unwrap().payload, "road");
}

#[test]
fn oriented_socket_uses_inverse_direction_mapping() {
    let tile = labeled_tile();
    let clockwise = D4::new(QuarterTurns::One, false);
    assert_eq!(tile.oriented_socket(clockwise, SquareDirection::East), &'n');
    let reflection = D4::new(QuarterTurns::Zero, true);
    assert_eq!(
        tile.oriented_socket(reflection, SquareDirection::West),
        &'e'
    );
}

#[test]
fn oriented_socket_supports_hex_transforms() {
    let tile = Tile::new(
        "road",
        SocketMap::from_fn(|direction| match direction {
            HexDirection::NorthEast => 'a',
            HexDirection::East => 'b',
            HexDirection::SouthEast => 'c',
            HexDirection::SouthWest => 'd',
            HexDirection::West => 'e',
            HexDirection::NorthWest => 'f',
        }),
    );
    let clockwise = D6::new(SixthTurns::One, false);
    assert_eq!(tile.oriented_socket(clockwise, HexDirection::East), &'a');
    let reflection = D6::new(SixthTurns::Zero, true);
    assert_eq!(tile.oriented_socket(reflection, HexDirection::West), &'b');
}

#[test]
fn equality_matcher_compares_values() {
    assert!(EqualityMatcher.matches(SquareDirection::East, &"road", &"road"));
    assert!(!EqualityMatcher.matches(SquareDirection::East, &"road", &"wall"));
}

#[test]
fn edge_strips_preserve_and_reverse_sample_order() {
    let strip = EdgeStrip::new(vec!['a', 'b', 'c']);
    assert_eq!(strip.len(), 3);
    assert!(!strip.is_empty());
    assert_eq!(strip.as_slice(), &['a', 'b', 'c']);
    assert_eq!(
        strip.iter().copied().collect::<Vec<_>>(),
        vec!['a', 'b', 'c']
    );
    assert_eq!(strip.reversed().into_vec(), vec!['c', 'b', 'a']);
}

#[test]
fn edge_strip_equality_rejects_one_changed_component() {
    let outgoing = EdgeStrip::new(vec![[10, 20, 30, 255], [40, 50, 60, 255]]);
    let incoming = EdgeStrip::new(vec![[10, 20, 30, 255], [40, 50, 60, 254]]);
    assert!(!EqualityMatcher.matches(SquareDirection::East, &outgoing, &incoming));
}

#[test]
fn oriented_square_edges_map_direction_and_order() {
    let tile = Tile::new(
        (),
        SocketMap::from_fn(|direction| match direction {
            SquareDirection::North => EdgeStrip::new(vec!['n', 'N']),
            SquareDirection::East => EdgeStrip::new(vec!['e', 'E']),
            SquareDirection::South => EdgeStrip::new(vec!['s', 'S']),
            SquareDirection::West => EdgeStrip::new(vec!['w', 'W']),
        }),
    );
    let clockwise = D4::new(QuarterTurns::One, false);
    assert_eq!(
        tile.oriented_edge(clockwise, SquareDirection::East),
        EdgeStrip::new(vec!['n', 'N'])
    );
    assert_eq!(
        tile.oriented_edge(clockwise, SquareDirection::South),
        EdgeStrip::new(vec!['E', 'e'])
    );
}

#[test]
fn oriented_hex_edges_support_all_d6_symmetries() {
    let tile = Tile::new(
        (),
        SocketMap::from_fn(|direction: HexDirection| {
            let label = direction.index() as u8;
            EdgeStrip::new(vec![label, label + 10, label + 20])
        }),
    );
    for transform in D6::all() {
        for local_direction in HexDirection::all() {
            let world_direction = transform.apply_direction(local_direction);
            let mut expected = tile.sockets[local_direction].clone();
            if transform.reverses_edge(local_direction) {
                expected = expected.reversed();
            }
            assert_eq!(
                tile.oriented_edge(transform, world_direction),
                expected,
                "{transform:?} {local_direction:?}"
            );
        }
    }
}

#[test]
fn custom_matcher_can_be_directional_and_asymmetric() {
    struct PlugToSocket;

    impl SocketMatcher<SquareDirection, &'static str> for PlugToSocket {
        fn matches(
            &self,
            direction: SquareDirection,
            outgoing: &&'static str,
            incoming: &&'static str,
        ) -> bool {
            direction == SquareDirection::East && *outgoing == "plug" && *incoming == "socket"
        }
    }

    assert!(PlugToSocket.matches(SquareDirection::East, &"plug", &"socket"));
    assert!(!PlugToSocket.matches(SquareDirection::West, &"plug", &"socket"));
    assert!(!PlugToSocket.matches(SquareDirection::East, &"socket", &"plug"));
}

#[test]
fn socket_maps_can_be_updated_in_place() {
    let mut sockets = labeled_tile().sockets;
    *sockets.get_mut(SquareDirection::South).unwrap() = 'X';
    sockets[SquareDirection::East] = 'Y';
    assert_eq!(sockets.get(SquareDirection::South), Some(&'X'));
    assert_eq!(
        sockets.iter(),
        vec![
            (SquareDirection::North, &'n'),
            (SquareDirection::East, &'Y'),
            (SquareDirection::South, &'X'),
            (SquareDirection::West, &'w'),
        ]
    );
}

#[test]
fn tile_sets_reject_unknown_ids_and_list_tiles_in_order() {
    let mut tiles = TileSet::with_capacity(2);
    assert!(tiles.is_empty());
    let first = tiles.insert(labeled_tile());
    assert_eq!(tiles.get(TileId::new(1)), None);
    tiles.get_mut(first).unwrap().payload = "wall";
    let listed = tiles.iter();
    assert_eq!(listed.len(), 1);
    assert_eq!(listed[0].0, TileId::new(0));
    assert_eq!(listed[0].1.payload, "wall");
    assert_eq!(tiles.len(), 1);
    let oriented = OrientedTileId::new(first, D4::identity());
    assert_eq!(oriented.tile, first);
}

#[test]
fn quarter_turn_reverses_only_the_edges_it_carries_across_axes() {
    let turn = D4::new(QuarterTurns::One, false);
    assert!(!turn.reverses_edge(SquareDirection::North));
    assert!(turn.reverses_edge(SquareDirection::East));
    let strip: EdgeStrip<u8> = vec![1, 2].into();
    assert_eq!(strip.into_vec(), vec![1, 2]);
}

#[test]
fn ids_keep_naming_their_tiles_after_later_inserts() {
    let named = |payload: &'static str| Tile::new(payload, SocketMap::from_fn(|_: SquareDirection| 'x'));
    let mut tiles = TileSet::with_capacity(1);
    let grass = tiles.insert(named("grass"));
    let water = tiles.insert(named("water"));
    let sand = tiles.insert(named("sand"));

    assert_eq!([grass.index(), water.index(), sand.index()], [0, 1, 2]);
    assert_eq!(tiles.len(), 3);
    assert!(!tiles.is_empty());
    assert_eq!(tiles.get(grass).unwrap().payload, "grass");
    assert_eq!(tiles.get(water).unwrap().payload, "water");
    assert_eq!(tiles.get(sand).unwrap().payload, "sand");
    assert!(tiles.get(TileId::new(3)).is_none());
}

#[test]
fn edge_strips_round_trip_through_their_samples() {
    let samples = vec![3_u32, 1, 4, 1, 5];
    let strip = EdgeStrip::new(samples.clone());
    assert_eq!(strip.len(), samples.len());
    assert_eq!(strip.as_slice(), samples.as_slice());
    assert_eq!(EdgeStrip::from(samples.clone()), strip);
    assert_eq!(strip.into_vec(), samples);
}
