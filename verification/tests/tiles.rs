use trash_detection::chunks::ChunkEntry;
use trash_detection::chunks::ChunkMap;
use trash_detection::chunks::cavg_chunks;
use trash_detection::chunks::temp_colour_chunks;
use trash_detection::group::locate_objects;
use trash_detection::image::Image;
use trash_detection::image::Rgba8;

fn img_from(width: usize, height: usize, px: &[Rgba8]) -> Image {
    assert_eq!(px.len(), width * height);
    Image { width, height, data: px.to_vec() }
}

fn find<'a>(m: &'a ChunkMap, tx: usize, ty: usize) -> Option<&'a ChunkEntry> {
    m.entries.iter().find(|e| e.tx == tx && e.ty == ty)
}

#[test]
fn chunk_means_are_exact() {
    let red = Rgba8::opaque(255, 0, 0);
    let half = Rgba8::opaque(0, 102, 0);
    // 4x2 image, 2x2 tiles: left tile red, right tile dim green
    let img = img_from(
        4,
        2,
        &[red, red, half, half, red, red, half, half],
    );
    let map = cavg_chunks(&img, 2, 2);
    assert_eq!(map.len(), 2);
    let left = find(&map, 0, 0).unwrap();
    assert_eq!((left.r, left.g, left.b), (1_000_000, 0, 0));
    let right = find(&map, 1, 0).unwrap();
    // 102/255 = 0.4 exactly
    assert_eq!((right.r, right.g, right.b), (0, 400_000, 0));
}

#[test]
fn chunk_truncates_partial_tiles() {
    let red = Rgba8::opaque(255, 0, 0);
    // 3 wide with 2-wide tiles: second tile is a single column
    let img = img_from(3, 1, &[red, red, red]);
    let map = cavg_chunks(&img, 2, 2);
    assert_eq!(map.len(), 2);
    assert!(find(&map, 0, 0).is_some());
    assert!(find(&map, 1, 0).is_some());
}

#[test]
fn invalid_tile_absent() {
    // a tile of nothing but invalid pixels never appears in the map
    let red = Rgba8::opaque(255, 0, 0);
    let ghostly = Rgba8::new(200, 200, 200, 0);
    let img = img_from(
        4,
        2,
        &[red, red, ghostly, ghostly, red, red, ghostly, ghostly],
    );
    let map = cavg_chunks(&img, 2, 2);
    assert_eq!(map.len(), 1);
    assert!(find(&map, 0, 0).is_some());
    assert!(find(&map, 1, 0).is_none());
}

#[test]
fn black_tile_elided() {
    // a genuinely black tile is indistinguishable from no data
    let red = Rgba8::opaque(255, 0, 0);
    let black = Rgba8::opaque(0, 0, 0);
    let img = img_from(
        4,
        2,
        &[red, red, black, black, red, red, black, black],
    );
    let map = cavg_chunks(&img, 2, 2);
    assert_eq!(map.len(), 1);
    assert!(find(&map, 1, 0).is_none());
}

#[test]
fn grouping_is_a_partition() {
    // every input tile coordinate lands in exactly one group
    let red = Rgba8::opaque(255, 0, 0);
    let blue = Rgba8::opaque(0, 0, 255);
    let black = Rgba8::opaque(0, 0, 0);
    let img = img_from(
        4,
        4,
        &[
            red, red, red, red,
            red, red, red, red,
            blue, blue, black, black,
            blue, blue, black, black,
        ],
    );
    let map = cavg_chunks(&img, 2, 2);
    let mut coords: Vec<(usize, usize)> =
        map.entries.iter().map(|e| (e.tx, e.ty)).collect();
    let groups = locate_objects(map);
    let mut out: Vec<(usize, usize)> = Vec::new();
    for g in &groups {
        for &c in &g.coords {
            assert!(!out.contains(&c), "coordinate grouped twice");
            out.push(c);
        }
    }
    coords.sort();
    out.sort();
    assert_eq!(coords, out);
}

#[test]
fn grouping_merges_similar_neighbours() {
    let red = Rgba8::opaque(255, 0, 0);
    let blue = Rgba8::opaque(0, 0, 255);
    let img = img_from(
        4,
        4,
        &[
            red, red, red, red,
            red, red, red, red,
            blue, blue, blue, blue,
            blue, blue, blue, blue,
        ],
    );
    let map = cavg_chunks(&img, 2, 2);
    assert_eq!(map.len(), 4);
    let groups = locate_objects(map);
    assert_eq!(groups.len(), 2);
    // the red group keeps its running mean at pure red
    let red_group = groups.iter().find(|g| g.r == 1_000_000).unwrap();
    assert_eq!(red_group.coords.len(), 2);
    assert_eq!((red_group.g, red_group.b), (0, 0));
    let blue_group = groups.iter().find(|g| g.b == 1_000_000).unwrap();
    assert_eq!(blue_group.coords.len(), 2);
}

#[test]
fn group_running_mean_single_tile() {
    let half = Rgba8::opaque(0, 102, 0);
    let img = img_from(2, 2, &[half, half, half, half]);
    let map = cavg_chunks(&img, 2, 2);
    let groups = locate_objects(map);
    assert_eq!(groups.len(), 1);
    assert_eq!(groups[0].coords, vec![(0, 0)]);
    assert_eq!((groups[0].r, groups[0].g, groups[0].b), (0, 400_000, 0));
}

#[test]
fn grouping_empty_map() {
    let map = ChunkMap { entries: Vec::new() };
    let groups = locate_objects(map);
    assert_eq!(groups.len(), 0);
}

#[test]
fn tile_painting_uses_tile_means() {
    let red = Rgba8::opaque(255, 0, 0);
    let half = Rgba8::opaque(0, 102, 0);
    let black = Rgba8::opaque(0, 0, 0);
    let img = img_from(
        4,
        2,
        &[red, red, half, half, red, red, half, half],
    );
    let painted = temp_colour_chunks(&img, 2, 2);
    assert_eq!(painted.get(0, 0), Rgba8::opaque(255, 0, 0));
    assert_eq!(painted.get(1, 1), Rgba8::opaque(255, 0, 0));
    // 0.4 of the cube scales back to 102
    assert_eq!(painted.get(2, 0), Rgba8::opaque(0, 102, 0));
    assert_eq!(painted.get(3, 1), Rgba8::opaque(0, 102, 0));
    let dark = img_from(2, 2, &[black, black, black, black]);
    let painted_dark = temp_colour_chunks(&dark, 2, 2);
    assert_eq!(painted_dark.get(0, 0), Rgba8::opaque(0, 0, 0));
}

#[test]
fn chunk_larger_than_image_is_one_tile() {
    let red = Rgba8::opaque(255, 0, 0);
    let img = img_from(2, 2, &[red, red, red, red]);
    let map = cavg_chunks(&img, 10, 10);
    assert_eq!(map.len(), 1);
    let only = find(&map, 0, 0).unwrap();
    assert_eq!((only.r, only.g, only.b), (1_000_000, 0, 0));
}
