use terrain_stream::decode::mesh_from_tile;
use terrain_stream::heightmap::{decode_pixel, HeightEncoding, HeightMap};
use terrain_stream::mesh::{build_mesh, flat_mesh, grid_indices};
use terrain_stream::tiles::{plan_tile, tile_index_of, tile_of_chunk, TileSource};
use terrain_stream::grid::ChunkCoord;

fn png(width: u32, height: u32, rgb: Vec<u8>) -> Vec<u8> {
    let img = image::RgbImage::from_raw(width, height, rgb).unwrap();
    let mut out = std::io::Cursor::new(Vec::new());
    image::DynamicImage::ImageRgb8(img).write_to(&mut out, image::ImageOutputFormat::Png).unwrap();
    out.into_inner()
}

#[test]
fn cached_tile_never_fetches() {
    assert_eq!(plan_tile(true, true), TileSource::Cache);
    assert_eq!(plan_tile(true, false), TileSource::Cache);
    assert_eq!(plan_tile(false, true), TileSource::Remote);
    assert_eq!(plan_tile(false, false), TileSource::Unavailable);
}

#[test]
fn tile_index_centres_and_clamps() {
    assert_eq!(tile_index_of(0, 13), 4095);
    assert_eq!(tile_index_of(1, 13), 4096);
    assert_eq!(tile_index_of(-1, 13), 4094);
    assert_eq!(tile_index_of(-5000, 13), 0);
    assert_eq!(tile_index_of(5000, 13), 8191);
    assert_eq!(tile_index_of(7, 0), 0);
    assert_eq!(tile_index_of(0, 1), 0);
    assert_eq!(tile_index_of(1, 1), 1);
    assert_eq!(tile_of_chunk(ChunkCoord { x: 2, y: -3 }, 4), (9, 4));
}

#[test]
fn pixel_encodings() {
    assert_eq!(decode_pixel(HeightEncoding::Normalized, 255, 9, 9), 255);
    assert_eq!(decode_pixel(HeightEncoding::Normalized, 0, 200, 200), 0);
    assert_eq!(decode_pixel(HeightEncoding::Terrarium, 128, 0, 0), 0);
    assert_eq!(decode_pixel(HeightEncoding::Terrarium, 128, 1, 0), 256);
    assert_eq!(decode_pixel(HeightEncoding::Terrarium, 128, 0, 128), 128);
    assert_eq!(decode_pixel(HeightEncoding::Terrarium, 0, 0, 0), -32768 * 256);
}

#[test]
fn heightmap_size_must_match_bytes() {
    assert!(HeightMap::new(2, 2, vec![0; 12]).is_some());
    assert!(HeightMap::new(2, 2, vec![0; 11]).is_none());
    assert!(HeightMap::new(0, 2, vec![]).is_none());
    assert!(HeightMap::new(1, 0, vec![]).is_none());
}

#[test]
fn grid_triangles() {
    assert_eq!(grid_indices(2), vec![0, 2, 3, 0, 3, 1]);
    let three = grid_indices(3);
    assert_eq!(three.len(), 24);
    assert_eq!(&three[6..12], &[1, 4, 5, 1, 5, 2]);
    assert_eq!(&three[18..24], &[4, 7, 8, 4, 8, 5]);
}

#[test]
fn uniform_heightmap_gives_level_mesh() {
    let m = HeightMap::new(4, 4, [130u8, 7, 3].repeat(16)).unwrap();
    let mesh = build_mesh(&m, HeightEncoding::Terrarium, 5);
    let v = decode_pixel(HeightEncoding::Terrarium, 130, 7, 3);
    assert_eq!(mesh.height_divisor, 9 * 256);
    assert_eq!(mesh.heights.len(), 25);
    assert!(mesh.heights.iter().all(|h| *h == 9 * v));
    assert!(mesh.normals.iter().all(|n| *n == (0, 256, 0)));
    assert_eq!(mesh.indices.len(), 6 * 16);
}

#[test]
fn slope_gives_smoothed_heights_and_tilted_normals() {
    // Red rises by 10 per column: a 3 by 1 map.
    let m = HeightMap::new(3, 1, vec![0, 0, 0, 10, 0, 0, 20, 0, 0]).unwrap();
    let mesh = build_mesh(&m, HeightEncoding::Normalized, 3);
    // Columns sample pixels 0, 1, 2; neighbours clamp at the edges.
    assert_eq!(mesh.heights[0], 3 * (0 + 0 + 10));
    assert_eq!(mesh.heights[1], 3 * (0 + 10 + 20));
    assert_eq!(mesh.heights[2], 3 * (10 + 20 + 20));
    assert_eq!(mesh.normals[0], (10 * 3, 255, 0));
    assert_eq!(mesh.normals[1], (20 * 3, 255, 0));
    assert_eq!(mesh.normals[2], (10 * 3, 255, 0));
    assert_eq!(mesh.height_divisor, 9 * 255);
}

#[test]
fn flat_mesh_is_level_and_up() {
    let mesh = flat_mesh(4);
    assert_eq!(mesh.heights, vec![0; 16]);
    assert!(mesh.normals.iter().all(|n| *n == (0, 1, 0)));
    assert_eq!(mesh.indices, grid_indices(4));
}

#[test]
fn tile_bytes_decode_into_a_mesh() {
    let bytes = png(2, 2, vec![1, 0, 0, 3, 0, 0, 5, 0, 0, 7, 0, 0]);
    let mesh = mesh_from_tile(&bytes, HeightEncoding::Normalized, 2).unwrap();
    // Vertex 0 samples pixel (0,0) and clamped neighbours: 4 of 1, 2 of 3, 2 of 5, 1 of 7.
    assert_eq!(mesh.heights[0], 4 * 1 + 2 * 3 + 2 * 5 + 7);
    assert_eq!(mesh.normals[0], (2 * (3 - 1), 255, -(2 * (5 - 1))));
    assert!(mesh_from_tile(&[1, 2, 3, 4], HeightEncoding::Normalized, 2).is_none());
    assert!(mesh_from_tile(&[], HeightEncoding::Terrarium, 2).is_none());
}
