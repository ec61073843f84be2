use linked_hash_map::LinkedHashMap;
use signmaker::error::Error;
use signmaker::io::{Input, Output};
use signmaker::p3d::{Face, Point, Vertex, LOD, P3D};

fn vertex(p: u32, n: u32) -> Vertex {
    Vertex { point_index: p, normal_index: n, uv: (0.25f32.to_bits(), 0.75f32.to_bits()) }
}

fn triangle() -> Face {
    Face {
        vertices: vec![vertex(0, 0), vertex(1, 0), vertex(2, 0)],
        flags: 7,
        texture: "a\\tex.paa".to_string(),
        material: "a\\mat.rvmat".to_string(),
    }
}

fn quad() -> Face {
    Face {
        vertices: vec![vertex(0, 1), vertex(1, 1), vertex(2, 1), vertex(3, 1)],
        flags: 0x0100_0000,
        texture: String::new(),
        material: "m".to_string(),
    }
}

fn sample_lod() -> LOD {
    let mut taggs: LinkedHashMap<String, Box<[u8]>> = LinkedHashMap::new();
    taggs.insert("#Mass#".to_string(), vec![1u8, 2, 3].into_boxed_slice());
    taggs.insert("#Property#".to_string(), Vec::new().into_boxed_slice());
    taggs.insert("#Animation#".to_string(), vec![9u8; 70].into_boxed_slice());
    LOD {
        version_major: 28,
        version_minor: 256,
        resolution: 1.0f32.to_bits(),
        points: vec![
            Point { coords: (1.5f32.to_bits(), 0, (-2.0f32).to_bits()), flags: 1 },
            Point { coords: (0, 0, 0), flags: 0 },
            Point { coords: (3, 4, 5), flags: 0xffff_ffff },
            Point::new(),
        ],
        face_normals: vec![(0, 1.0f32.to_bits(), 0), (1, 2, 3)],
        faces: vec![triangle(), quad(), triangle()],
        taggs,
    }
}

fn sample_doc() -> P3D {
    let empty = LOD {
        version_major: 1,
        version_minor: 2,
        resolution: 0,
        points: Vec::new(),
        face_normals: Vec::new(),
        faces: Vec::new(),
        taggs: LinkedHashMap::new(),
    };
    P3D { version: 257, lods: vec![sample_lod(), empty] }
}

fn to_bytes(doc: &P3D) -> Vec<u8> {
    let mut out = Output::new();
    doc.write(&mut out).unwrap();
    out.into_bytes()
}

fn from_bytes(bytes: Vec<u8>) -> Result<P3D, Error> {
    let mut input = Input::new(bytes);
    P3D::read(&mut input)
}

fn triangle_record(count: u32) -> Vec<u8> {
    let mut bytes = Vec::new();
    bytes.extend_from_slice(&count.to_le_bytes());
    for slot in 0..4u32 {
        bytes.extend_from_slice(&slot.to_le_bytes());
        bytes.extend_from_slice(&(slot + 10).to_le_bytes());
        bytes.extend_from_slice(&(slot + 20).to_le_bytes());
        bytes.extend_from_slice(&(slot + 30).to_le_bytes());
    }
    bytes.extend_from_slice(&5u32.to_le_bytes());
    bytes.extend_from_slice(b"tex\0mat\0");
    bytes
}

fn lod_record(reserved: [u8; 4], entries: &[(&str, &[u8])]) -> Vec<u8> {
    let mut bytes = Vec::new();
    bytes.extend_from_slice(b"P3DM");
    bytes.extend_from_slice(&3u32.to_le_bytes());
    bytes.extend_from_slice(&4u32.to_le_bytes());
    bytes.extend_from_slice(&0u32.to_le_bytes());
    bytes.extend_from_slice(&0u32.to_le_bytes());
    bytes.extend_from_slice(&0u32.to_le_bytes());
    bytes.extend_from_slice(&reserved);
    bytes.extend_from_slice(b"TAGG");
    for (name, payload) in entries {
        bytes.push(1);
        bytes.extend_from_slice(name.as_bytes());
        bytes.push(0);
        bytes.extend_from_slice(&(payload.len() as u32).to_le_bytes());
        bytes.extend_from_slice(payload);
    }
    bytes.extend_from_slice(&2.5f32.to_bits().to_le_bytes());
    bytes
}

#[test]
fn document_round_trip() {
    let doc = sample_doc();
    let bytes = to_bytes(&doc);
    let again = from_bytes(bytes.clone()).unwrap();
    assert_eq!(again, doc);
    assert_eq!(to_bytes(&again), bytes);
}

#[test]
fn document_layout_is_exact() {
    let doc = P3D {
        version: 0x0102_0304,
        lods: vec![LOD {
            version_major: 1,
            version_minor: 2,
            resolution: 0x4000_0000,
            points: vec![Point { coords: (1, 2, 3), flags: 4 }],
            face_normals: vec![(5, 6, 7)],
            faces: Vec::new(),
            taggs: LinkedHashMap::new(),
        }],
    };
    let mut expected: Vec<u8> = Vec::new();
    expected.extend_from_slice(b"MLOD");
    expected.extend_from_slice(&[4, 3, 2, 1]);
    expected.extend_from_slice(&[1, 0, 0, 0]);
    expected.extend_from_slice(b"P3DM");
    for word in [1u32, 2, 1, 1, 0, 0, 1, 2, 3, 4, 5, 6, 7] {
        expected.extend_from_slice(&word.to_le_bytes());
    }
    expected.extend_from_slice(b"TAGG");
    expected.extend_from_slice(b"\x01#EndOfFile#\0");
    expected.extend_from_slice(&[0, 0, 0, 0]);
    expected.extend_from_slice(&[0, 0, 0, 0x40]);
    assert_eq!(to_bytes(&doc), expected);
}

#[test]
fn tag_order_is_kept() {
    let doc = sample_doc();
    let again = from_bytes(to_bytes(&doc)).unwrap();
    let names: Vec<&str> = again.lods[0].taggs.keys().map(|k| k.as_str()).collect();
    assert_eq!(names, vec!["#Mass#", "#Property#", "#Animation#"]);
    let payload = again.lods[0].taggs.get("#Mass#").unwrap();
    assert_eq!(&payload[..], &[1u8, 2, 3][..]);
    assert!(!again.lods[0].taggs.contains_key("#EndOfFile#"));
}

#[test]
fn counts_are_kept() {
    let doc = sample_doc();
    let again = from_bytes(to_bytes(&doc)).unwrap();
    assert_eq!(again.lods.len(), 2);
    assert_eq!(again.lods[0].points.len(), 4);
    assert_eq!(again.lods[0].face_normals.len(), 2);
    assert_eq!(again.lods[0].faces.len(), 3);
    assert_eq!(again.lods[1].points.len(), 0);
    assert_eq!(again.lods[1].face_normals.len(), 0);
    assert_eq!(again.lods[1].faces.len(), 0);
}

#[test]
fn header_counts_come_from_lengths() {
    let bytes = to_bytes(&sample_doc());
    assert_eq!(&bytes[0..4], b"MLOD");
    assert_eq!(&bytes[4..8], &257u32.to_le_bytes());
    assert_eq!(&bytes[8..12], &2u32.to_le_bytes());
    assert_eq!(&bytes[12..16], b"P3DM");
    assert_eq!(&bytes[24..28], &4u32.to_le_bytes());
    assert_eq!(&bytes[28..32], &2u32.to_le_bytes());
    assert_eq!(&bytes[32..36], &3u32.to_le_bytes());
    assert_eq!(&bytes[36..40], &[0u8, 0, 0, 0]);
}

#[test]
fn triangle_is_padded_on_disk_only() {
    let face = triangle();
    let mut out = Output::new();
    face.write(&mut out).unwrap();
    let bytes = out.into_bytes();
    assert_eq!(bytes.len(), 4 + 4 * 16 + 4 + 10 + 12);
    assert_eq!(&bytes[0..4], &3u32.to_le_bytes());
    assert_eq!(&bytes[52..68], &[0u8; 16]);
    let mut input = Input::new(bytes);
    let again = Face::read(&mut input).unwrap();
    assert_eq!(again.vertices.len(), 3);
    assert_eq!(again, face);
    assert_eq!(input.remaining(), 0);
}

#[test]
fn quad_keeps_four_vertices() {
    let face = quad();
    let mut out = Output::new();
    face.write(&mut out).unwrap();
    let bytes = out.into_bytes();
    assert_eq!(bytes.len(), 4 + 4 * 16 + 4 + 1 + 2);
    let mut input = Input::new(bytes);
    assert_eq!(Face::read(&mut input).unwrap(), face);
}

#[test]
fn padding_slot_content_is_dropped() {
    let mut input = Input::new(triangle_record(3));
    let face = Face::read(&mut input).unwrap();
    assert_eq!(face.vertices.len(), 3);
    assert_eq!(face.vertices[2], Vertex { point_index: 2, normal_index: 12, uv: (22, 32) });
    assert_eq!(face.flags, 5);
    assert_eq!(face.texture, "tex");
    assert_eq!(face.material, "mat");
    let mut out = Output::new();
    face.write(&mut out).unwrap();
    let bytes = out.into_bytes();
    assert_eq!(&bytes[52..68], &[0u8; 16]);
}

#[test]
fn four_slots_are_four_vertices() {
    let mut input = Input::new(triangle_record(4));
    let face = Face::read(&mut input).unwrap();
    assert_eq!(face.vertices.len(), 4);
    assert_eq!(face.vertices[3], Vertex { point_index: 3, normal_index: 13, uv: (23, 33) });
}

#[test]
fn rejects_bad_magic() {
    let mut bytes = to_bytes(&sample_doc());
    bytes[0] = b'X';
    let total = bytes.len();
    let mut input = Input::new(bytes);
    assert_eq!(P3D::read(&mut input), Err(Error::BadMagic));
    assert_eq!(input.remaining(), total - 4);
    assert!(Error::BadMagic.is_format_error());
}

#[test]
fn rejects_bad_lod_magic() {
    let mut bytes = to_bytes(&sample_doc());
    bytes[15] = b'X';
    assert_eq!(from_bytes(bytes), Err(Error::BadMagic));
}

#[test]
fn rejects_bad_tagg_magic() {
    let mut bytes = lod_record([0; 4], &[("#EndOfFile#", &[])]);
    bytes[28] = b'X';
    let mut input = Input::new(bytes);
    assert_eq!(LOD::read(&mut input), Err(Error::BadMagic));
}

#[test]
fn rejects_vertex_count_five() {
    let mut input = Input::new(triangle_record(5));
    assert_eq!(Face::read(&mut input), Err(Error::BadVertexCount));
    let mut short = Input::new(5u32.to_le_bytes().to_vec());
    assert_eq!(Face::read(&mut short), Err(Error::BadVertexCount));
    let mut zero = Input::new(triangle_record(0));
    assert_eq!(Face::read(&mut zero), Err(Error::BadVertexCount));
}

#[test]
fn rejects_truncated_streams() {
    let bytes = to_bytes(&sample_doc());
    for cut in [0usize, 3, 4, 11, 12, 30, 60, 200, bytes.len() - 1] {
        let part = bytes[..cut].to_vec();
        assert_eq!(from_bytes(part), Err(Error::UnexpectedEof), "cut at {}", cut);
    }
    assert!(Error::UnexpectedEof.is_format_error());
}

#[test]
fn rejects_invalid_utf8_path() {
    let mut bytes = triangle_record(3);
    let at = bytes.len() - 8;
    bytes[at] = 0xff;
    let mut input = Input::new(bytes);
    assert_eq!(Face::read(&mut input), Err(Error::InvalidUtf8));
}

#[test]
fn reserved_bytes_are_dropped() {
    let bytes = lod_record([9, 8, 7, 6], &[("a", &[1, 2]), ("#EndOfFile#", &[])]);
    let mut input = Input::new(bytes);
    let lod = LOD::read(&mut input).unwrap();
    assert_eq!(input.remaining(), 0);
    assert_eq!(lod.version_major, 3);
    assert_eq!(lod.version_minor, 4);
    assert_eq!(lod.resolution, 2.5f32.to_bits());
    let mut out = Output::new();
    lod.write(&mut out).unwrap();
    let written = out.into_bytes();
    assert_eq!(written, lod_record([0; 4], &[("a", &[1, 2]), ("#EndOfFile#", &[])]));
}

#[test]
fn sentinel_payload_is_dropped() {
    let bytes = lod_record([0; 4], &[("a", &[1]), ("#EndOfFile#", &[7, 7, 7])]);
    let mut input = Input::new(bytes);
    let lod = LOD::read(&mut input).unwrap();
    assert_eq!(input.remaining(), 0);
    assert_eq!(lod.taggs.len(), 1);
    assert_eq!(lod.resolution, 2.5f32.to_bits());
}

#[test]
fn repeated_tag_name_keeps_first_place() {
    let bytes = lod_record(
        [0; 4],
        &[("a", &[1]), ("b", &[2]), ("a", &[3, 3]), ("#EndOfFile#", &[])],
    );
    let mut input = Input::new(bytes);
    let lod = LOD::read(&mut input).unwrap();
    let entries: Vec<(&str, &[u8])> =
        lod.taggs.iter().map(|(k, v)| (k.as_str(), &v[..])).collect();
    assert_eq!(entries, vec![("a", &[3u8, 3][..]), ("b", &[2u8][..])]);
    let mut out = Output::new();
    lod.write(&mut out).unwrap();
    assert_eq!(
        out.into_bytes(),
        lod_record([0; 4], &[("a", &[3, 3]), ("b", &[2]), ("#EndOfFile#", &[])])
    );
}

#[test]
fn tag_table_without_sentinel_is_truncated() {
    let bytes = lod_record([0; 4], &[("a", &[1])]);
    let mut input = Input::new(bytes);
    assert_eq!(LOD::read(&mut input), Err(Error::UnexpectedEof));
}

#[test]
fn new_values_are_zero() {
    assert_eq!(Point::new(), Point { coords: (0, 0, 0), flags: 0 });
    assert_eq!(Vertex::new(), Vertex { point_index: 0, normal_index: 0, uv: (0, 0) });
    let face = Face::new();
    assert!(face.vertices.is_empty());
    assert_eq!(face.flags, 0);
    assert_eq!(face.texture, "");
    assert_eq!(face.material, "");
}

#[test]
fn point_and_vertex_records() {
    let mut out = Output::new();
    Point { coords: (1, 2, 3), flags: 0x0a0b_0c0d }.write(&mut out);
    Vertex { point_index: 4, normal_index: 5, uv: (6, 7) }.write(&mut out);
    let bytes = out.into_bytes();
    assert_eq!(
        bytes,
        vec![
            1, 0, 0, 0, 2, 0, 0, 0, 3, 0, 0, 0, 0x0d, 0x0c, 0x0b, 0x0a, 4, 0, 0, 0, 5, 0, 0, 0,
            6, 0, 0, 0, 7, 0, 0, 0
        ]
    );
    let mut input = Input::new(bytes);
    assert_eq!(
        Point::read(&mut input),
        Ok(Point { coords: (1, 2, 3), flags: 0x0a0b_0c0d })
    );
    assert_eq!(
        Vertex::read(&mut input),
        Ok(Vertex { point_index: 4, normal_index: 5, uv: (6, 7) })
    );
    assert_eq!(Vertex::read(&mut input), Err(Error::UnexpectedEof));
}

#[test]
fn mutated_paths_are_written() {
    let mut doc = from_bytes(to_bytes(&sample_doc())).unwrap();
    doc.lods[0].faces[0].texture = "signs\\data\\town.paa".to_string();
    doc.lods[0].faces[0].material = "signs\\data\\sign_base.rvmat".to_string();
    let again = from_bytes(to_bytes(&doc)).unwrap();
    assert_eq!(again.lods[0].faces[0].texture, "signs\\data\\town.paa");
    assert_eq!(again.lods[0].faces[0].material, "signs\\data\\sign_base.rvmat");
    assert_eq!(again.lods[0].faces[1], quad());
    assert_eq!(again, doc);
}

#[test]
fn non_ascii_paths_round_trip() {
    let mut face = quad();
    face.texture = "Köln\\größe.paa".to_string();
    let mut out = Output::new();
    face.write(&mut out).unwrap();
    let mut input = Input::new(out.into_bytes());
    assert_eq!(Face::read(&mut input).unwrap(), face);
}

#[test]
fn five_vertices_are_written_as_they_are_and_not_read_back() {
    let mut face = quad();
    face.vertices.push(vertex(4, 1));
    let mut out = Output::new();
    face.write(&mut out).unwrap();
    let bytes = out.into_bytes();
    assert_eq!(&bytes[0..4], &5u32.to_le_bytes());
    assert_eq!(bytes.len(), 4 + 5 * 16 + 4 + 1 + 2);
    let mut input = Input::new(bytes);
    assert_eq!(Face::read(&mut input), Err(Error::BadVertexCount));
}

#[test]
fn empty_document() {
    let doc = P3D { version: 0, lods: Vec::new() };
    let bytes = to_bytes(&doc);
    assert_eq!(bytes, vec![b'M', b'L', b'O', b'D', 0, 0, 0, 0, 0, 0, 0, 0]);
    assert_eq!(from_bytes(bytes), Ok(doc));
}

#[test]
fn bytes_after_the_document_are_left() {
    let mut bytes = to_bytes(&sample_doc());
    bytes.extend_from_slice(&[1, 2, 3]);
    let mut input = Input::new(bytes);
    assert_eq!(P3D::read(&mut input), Ok(sample_doc()));
    assert_eq!(input.remaining(), 3);
}
