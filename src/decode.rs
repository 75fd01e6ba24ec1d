use crate::heightmap::{HeightEncoding, HeightMap, MAX_RESOLUTION};
use crate::mesh::{build_mesh, built_from, TerrainMesh};
use vstd::prelude::*;

verus! {

/// What decoding image file bytes gives: width, height and pixels as three
/// bytes each, rows top to bottom; `None` when the bytes are no image.
pub uninterp spec fn decoded_rgb(bytes: Seq<u8>) -> Option<(u32, u32, Seq<u8>)>;

/// Relies on `image::load_from_memory`, which recognises the format from the
/// bytes and decodes them, and on `DynamicImage::to_rgb8`, which gives the
/// pixels as RGB bytes in a buffer of exactly `3 * width * height` bytes
/// (`ImageBuffer::new` allocates that length).
#[verifier::external_body]
fn decode_rgb(bytes: &[u8]) -> (r: Option<(u32, u32, Vec<u8>)>)
    ensures
        r matches Some(t) ==> decoded_rgb(bytes@) == Some((t.0, t.1, t.2@))
            && t.2@.len() == 3 * (t.0 as int) * (t.1 as int),
        r is None ==> decoded_rgb(bytes@) is None,
{
    match image::load_from_memory(bytes) {
        Ok(img) => {
            let rgb = img.to_rgb8();
            let (w, h) = rgb.dimensions();
            Some((w, h, rgb.into_raw()))
        },
        Err(_) => None,
    }
}

/// Whether decoded pixels make a usable heightmap: a non-empty image.
pub open spec fn usable(d: Option<(u32, u32, Seq<u8>)>) -> bool {
    d matches Some(t) && t.0 >= 1 && t.1 >= 1 && t.2.len() == 3 * (t.0 as int) * (t.1 as int)
}

/// `mesh` is built, in `enc` at resolution `res`, from the heightmap that
/// the decoded pixels `d` make.
pub open spec fn mesh_of_decoded(mesh: &TerrainMesh, d: Option<(u32, u32, Seq<u8>)>, enc: HeightEncoding, res: int) -> bool {
    exists|m: HeightMap|
        #![trigger built_from(mesh, &m, enc, res)]
        d == Some((m.width, m.height, m.rgb@)) && m.wf() && built_from(mesh, &m, enc, res)
}

/// The mesh of a chunk from decoded tile pixels; `None` when they make no
/// usable heightmap, so the chunk keeps waiting.
pub fn mesh_from_decoded(decoded: Option<(u32, u32, Vec<u8>)>, enc: HeightEncoding, res: usize) -> (r: Option<TerrainMesh>)
    requires
        2 <= res <= MAX_RESOLUTION,
    ensures
        ({
            let d = match decoded {
                Some(t) => Some((t.0, t.1, t.2@)),
                None => None,
            };
            &&& r is Some == usable(d)
            &&& r matches Some(mesh) ==> mesh_of_decoded(&mesh, d, enc, res as int)
        }),
{
    match decoded {
        Some(t) => {
            let (w, h, rgb) = t;
            match HeightMap::new(w, h, rgb) {
                Some(m) => {
                    let mesh = build_mesh(&m, enc, res);
                    assert(built_from(&mesh, &m, enc, res as int));
                    Some(mesh)
                },
                None => None,
            }
        },
        None => None,
    }
}

/// The mesh of a chunk from the bytes of an image file holding its
/// heightmap; `None` when they decode to no usable heightmap.
pub fn mesh_from_tile(bytes: &[u8], enc: HeightEncoding, res: usize) -> (r: Option<TerrainMesh>)
    requires
        2 <= res <= MAX_RESOLUTION,
    ensures
        r is Some == usable(decoded_rgb(bytes@)),
        r matches Some(mesh) ==> mesh_of_decoded(&mesh, decoded_rgb(bytes@), enc, res as int),
{
    let decoded = decode_rgb(bytes);
    mesh_from_decoded(decoded, enc, res)
}

} // verus!
