use crate::error::Error;
use crate::io::{cstring_bytes, lemma_parse_cstring_nul_free, ReadExt, WriteExt};
use crate::layout::{
    faces_storable, lods_storable, magic_mlod, magic_p3dm, magic_tagg, padding_vertex,
    parse_tagg_table, FaceView, LodView, Normal, P3DView,
};
use crate::le::{lemma_concat_assoc, u32_at, u32_bytes};
use crate::record::{encode_all, lemma_encode_all_step, parse_n, Record};
use crate::taggs::{
    encode_entries, encode_tagg, encode_taggs, lemma_without_absent, parse_taggs, sentinel,
    tagg_entries, taggs_contains, taggs_insert, taggs_list, taggs_new, taggs_replace,
    taggs_storable, Tagg,
};
use linked_hash_map::LinkedHashMap;
use vstd::prelude::*;
use vstd::utf8::encode_utf8;

verus! {

/// A point of a mesh. The coordinates are single-precision numbers, held as
/// their IEEE 754 bit patterns.
#[derive(Clone, Copy, Debug, PartialEq, Eq)]
pub struct Point {
    pub coords: (u32, u32, u32),
    pub flags: u32,
}

/// A corner of a face: indices into the points and normals of its level of
/// detail, and texture coordinates as IEEE 754 bit patterns.
#[derive(Clone, Copy, Debug, PartialEq, Eq)]
pub struct Vertex {
    pub point_index: u32,
    pub normal_index: u32,
    pub uv: (u32, u32),
}

/// A triangle or quadrilateral with the paths of its texture and material.
#[derive(Clone, Debug, PartialEq, Eq)]
pub struct Face {
    pub vertices: Vec<Vertex>,
    pub flags: u32,
    pub texture: String,
    pub material: String,
}

/// One level of detail of a model: a mesh and its ordered table of named
/// tag blocks. The resolution is a single-precision number, held as its bit
/// pattern.
#[derive(Debug, PartialEq, Eq)]
pub struct LOD {
    pub version_major: u32,
    pub version_minor: u32,
    pub resolution: u32,
    pub points: Vec<Point>,
    pub face_normals: Vec<(u32, u32, u32)>,
    pub faces: Vec<Face>,
    pub taggs: LinkedHashMap<String, Box<[u8]>>,
}

/// A model document: a version and its levels of detail in order.
#[derive(Debug, PartialEq, Eq)]
pub struct P3D {
    pub version: u32,
    pub lods: Vec<LOD>,
}

impl View for Face {
    type V = FaceView;

    open spec fn view(&self) -> FaceView {
        FaceView {
            vertices: self.vertices@,
            flags: self.flags,
            texture: self.texture@,
            material: self.material@,
        }
    }
}

/// What the faces of `faces` hold, in order.
pub open spec fn face_views(faces: Seq<Face>) -> Seq<FaceView> {
    faces.map_values(|f: Face| f@)
}

impl View for LOD {
    type V = LodView;

    open spec fn view(&self) -> LodView {
        LodView {
            version_major: self.version_major,
            version_minor: self.version_minor,
            resolution: self.resolution,
            points: self.points@,
            face_normals: self.face_normals@,
            faces: face_views(self.faces@),
            taggs: tagg_entries(self.taggs),
        }
    }
}

/// What the levels of detail of `lods` hold, in order.
pub open spec fn lod_views(lods: Seq<LOD>) -> Seq<LodView> {
    lods.map_values(|l: LOD| l@)
}

impl View for P3D {
    type V = P3DView;

    open spec fn view(&self) -> P3DView {
        P3DView { version: self.version, lods: lod_views(self.lods@) }
    }
}

/// Consumes four bytes and checks that they are `a`, `b`, `c`, `d`.
fn read_magic<I: ReadExt>(input: &mut I, a: u8, b: u8, c: u8, d: u8) -> (r: Result<(), Error>)
    ensures
        old(input).unread().len() < 4 ==> r == Err::<(), Error>(Error::UnexpectedEof),
        old(input).unread().len() >= 4 ==> final(input).unread() == old(input).unread().skip(4),
        old(input).unread().len() >= 4 && old(input).unread().take(4) == seq![a, b, c, d] ==> r
            == Ok::<(), Error>(()),
        old(input).unread().len() >= 4 && old(input).unread().take(4) != seq![a, b, c, d] ==> r
            == Err::<(), Error>(Error::BadMagic),
{
    let got = input.read_exact(4)?;
    if got[0] == a && got[1] == b && got[2] == c && got[3] == d {
        assert(got@ =~= seq![a, b, c, d]);
        Ok(())
    } else {
        Err(Error::BadMagic)
    }
}

/// Consumes four little-endian 32-bit values.
fn read_words<I: ReadExt>(input: &mut I) -> (r: Result<(u32, u32, u32, u32), Error>)
    ensures
        r is Ok <==> old(input).unread().len() >= 16,
        r matches Ok(w) ==> w.0 == u32_at(old(input).unread(), 0) && w.1 == u32_at(
            old(input).unread(),
            4,
        ) && w.2 == u32_at(old(input).unread(), 8) && w.3 == u32_at(old(input).unread(), 12)
            && final(input).unread() == old(input).unread().skip(16),
        r matches Err(e) ==> e == Error::UnexpectedEof,
{
    let ghost s = input.unread();
    let a = input.read_u32()?;
    let b = input.read_u32()?;
    let c = input.read_u32()?;
    let d = input.read_u32()?;
    assert(input.unread() =~= s.skip(16));
    Ok((a, b, c, d))
}

impl Point {
    /// The point at the origin with no flags.
    pub fn new() -> (r: Point)
        ensures
            r == (Point { coords: (0, 0, 0), flags: 0 }),
    {
        Point { coords: (0, 0, 0), flags: 0 }
    }

    /// Reads one point: three coordinates and the flags.
    pub fn read<I: ReadExt>(input: &mut I) -> (r: Result<Point, Error>)
        ensures
            match r {
                Ok(p) => Point::parse(old(input).unread()) == Ok::<(Point, Seq<u8>), Error>(
                    (p, final(input).unread()),
                ),
                Err(e) => Point::parse(old(input).unread()) == Err::<(Point, Seq<u8>), Error>(e),
            },
    {
        let w = read_words(input)?;
        Ok(Point { coords: (w.0, w.1, w.2), flags: w.3 })
    }

    /// Appends the 16 bytes of the point.
    pub fn write<O: WriteExt>(&self, output: &mut O)
        ensures
            final(output).written() == old(output).written() + self.encode(),
    {
        let ghost before = output.written();
        output.write_u32(self.coords.0);
        output.write_u32(self.coords.1);
        output.write_u32(self.coords.2);
        output.write_u32(self.flags);
        proof {
            let a = u32_bytes(self.coords.0);
            let b = u32_bytes(self.coords.1);
            let c = u32_bytes(self.coords.2);
            let d = u32_bytes(self.flags);
            lemma_concat_assoc(before, a, b);
            lemma_concat_assoc(before, a + b, c);
            lemma_concat_assoc(before, a + b + c, d);
        }
    }
}

impl Vertex {
    /// The vertex with all fields zero; it fills the fourth slot of a stored triangle.
    pub fn new() -> (r: Vertex)
        ensures
            r == padding_vertex(),
    {
        Vertex { point_index: 0, normal_index: 0, uv: (0, 0) }
    }

    /// Reads one vertex: point index, normal index and texture coordinates.
    pub fn read<I: ReadExt>(input: &mut I) -> (r: Result<Vertex, Error>)
        ensures
            match r {
                Ok(v) => Vertex::parse(old(input).unread()) == Ok::<(Vertex, Seq<u8>), Error>(
                    (v, final(input).unread()),
                ),
                Err(e) => Vertex::parse(old(input).unread()) == Err::<(Vertex, Seq<u8>), Error>(
                    e,
                ),
            },
    {
        let w = read_words(input)?;
        Ok(Vertex { point_index: w.0, normal_index: w.1, uv: (w.2, w.3) })
    }

    /// Appends the 16 bytes of the vertex.
    pub fn write<O: WriteExt>(&self, output: &mut O)
        ensures
            final(output).written() == old(output).written() + self.encode(),
    {
        let ghost before = output.written();
        output.write_u32(self.point_index);
        output.write_u32(self.normal_index);
        output.write_u32(self.uv.0);
        output.write_u32(self.uv.1);
        proof {
            let a = u32_bytes(self.point_index);
            let b = u32_bytes(self.normal_index);
            let c = u32_bytes(self.uv.0);
            let d = u32_bytes(self.uv.1);
            lemma_concat_assoc(before, a, b);
            lemma_concat_assoc(before, a + b, c);
            lemma_concat_assoc(before, a + b + c, d);
        }
    }
}

/// Reads one face normal: three coordinates.
fn read_normal<I: ReadExt>(input: &mut I) -> (r: Result<(u32, u32, u32), Error>)
    ensures
        match r {
            Ok(n) => Normal::parse(old(input).unread()) == Ok::<(Normal, Seq<u8>), Error>(
                (n, final(input).unread()),
            ),
            Err(e) => Normal::parse(old(input).unread()) == Err::<(Normal, Seq<u8>), Error>(e),
        },
{
    let ghost s = input.unread();
    let a = input.read_u32()?;
    let b = input.read_u32()?;
    let c = input.read_u32()?;
    assert(input.unread() =~= s.skip(12));
    Ok((a, b, c))
}

/// Appends the 12 bytes of a face normal.
fn write_normal<O: WriteExt>(normal: &(u32, u32, u32), output: &mut O)
    ensures
        final(output).written() == old(output).written() + normal.encode(),
{
    let ghost before = output.written();
    output.write_u32(normal.0);
    output.write_u32(normal.1);
    output.write_u32(normal.2);
    proof {
        let a = u32_bytes(normal.0);
        let b = u32_bytes(normal.1);
        lemma_concat_assoc(before, a, b);
        lemma_concat_assoc(before, a + b, u32_bytes(normal.2));
    }
}

impl Face {
    /// A face without vertices, flags or paths.
    pub fn new() -> (r: Face)
        ensures
            r@ == (FaceView {
                vertices: Seq::empty(),
                flags: 0,
                texture: Seq::empty(),
                material: Seq::empty(),
            }),
    {
        Face {
            vertices: Vec::with_capacity(4),
            flags: 0,
            texture: String::new(),
            material: String::new(),
        }
    }

    /// Reads one face. The record always holds four vertex slots; the
    /// fourth slot of a triangle is read and dropped.
    pub fn read<I: ReadExt>(input: &mut I) -> (r: Result<Face, Error>)
        ensures
            match r {
                Ok(f) => FaceView::parse(old(input).unread()) == Ok::<(FaceView, Seq<u8>), Error>(
                    (f@, final(input).unread()),
                ),
                Err(e) => FaceView::parse(old(input).unread()) == Err::<
                    (FaceView, Seq<u8>),
                    Error,
                >(e),
            },
    {
        let ghost s = input.unread();
        let count = input.read_u32()?;
        if count != 3 && count != 4 {
            return Err(Error::BadVertexCount);
        }
        let v0 = Vertex::read(input)?;
        assert(input.unread() =~= s.skip(20));
        let v1 = Vertex::read(input)?;
        assert(input.unread() =~= s.skip(36));
        let v2 = Vertex::read(input)?;
        assert(input.unread() =~= s.skip(52));
        let v3 = Vertex::read(input)?;
        assert(input.unread() =~= s.skip(68));
        let flags = input.read_u32()?;
        assert(input.unread() =~= s.skip(72));
        let texture = input.read_cstring()?;
        let material = input.read_cstring()?;
        let mut vertices: Vec<Vertex> = Vec::with_capacity(4);
        vertices.push(v0);
        vertices.push(v1);
        vertices.push(v2);
        if count == 4 {
            vertices.push(v3);
        }
        let face = Face { vertices, flags, texture, material };
        assert(face@.vertices =~= FaceView::parse(s)->Ok_0.0.vertices);
        Ok(face)
    }

    /// Appends the face: vertex count, vertices, a zero vertex after the
    /// three of a triangle, flags, and the two paths. Fails, with part of the
    /// face written, if the vertex count does not fit 32 bits.
    pub fn write<O: WriteExt>(&self, output: &mut O) -> (r: Result<(), Error>)
        ensures
            r is Ok <==> self@.storable(),
            r is Ok ==> final(output).written() == old(output).written() + self@.encode(),
            r matches Err(e) ==> e == Error::TooLarge,
    {
        let ghost before = output.written();
        let n: usize = self.vertices.len();
        if n > 0xffff_ffff {
            return Err(Error::TooLarge);
        }
        output.write_u32(n as u32);
        let ghost head = before + u32_bytes(n as u32);
        let mut i: usize = 0;
        assert(self.vertices@.skip(0) =~= self.vertices@);
        while i < n
            invariant
                n == self.vertices.len(),
                i <= n,
                output.written() + encode_all(self.vertices@.skip(i as int)) == head + encode_all(
                    self.vertices@,
                ),
            decreases n - i,
        {
            proof {
                lemma_encode_all_step(self.vertices@, i as int, output.written());
            }
            self.vertices[i].write(output);
            i = i + 1;
        }
        assert(encode_all(self.vertices@.skip(n as int)) =~= Seq::<u8>::empty());
        assert(output.written() =~= head + encode_all(self.vertices@));
        if n == 3 {
            let pad = Vertex::new();
            pad.write(output);
        } else {
            assert(output.written() =~= head + encode_all(self.vertices@) + self@.padding());
        }
        output.write_u32(self.flags);
        let _ = output.write_cstring(self.texture.as_str().as_bytes());
        let _ = output.write_cstring(self.material.as_str().as_bytes());
        proof {
            let ev = self@.encode_vertices();
            let g = u32_bytes(self.flags);
            let ct = cstring_bytes(self.texture@);
            let cm = cstring_bytes(self.material@);
            lemma_concat_assoc(before, u32_bytes(n as u32), encode_all(self.vertices@));
            lemma_concat_assoc(
                before,
                u32_bytes(n as u32) + encode_all(self.vertices@),
                self@.padding(),
            );
            lemma_concat_assoc(before, ev, g);
            lemma_concat_assoc(before + (ev + g), encode_utf8(self.texture@), seq![0u8]);
            lemma_concat_assoc(before, ev + g, ct);
            lemma_concat_assoc(before + (ev + g + ct), encode_utf8(self.material@), seq![0u8]);
            lemma_concat_assoc(before, ev + g + ct, cm);
        }
        Ok(())
    }
}

/// Reads `n` points.
fn read_points<I: ReadExt>(input: &mut I, n: u32) -> (r: Result<Vec<Point>, Error>)
    ensures
        match r {
            Ok(v) => parse_n::<Point>(old(input).unread(), n as nat, Seq::empty()) == Ok::<
                (Seq<Point>, Seq<u8>),
                Error,
            >((v@, final(input).unread())),
            Err(e) => parse_n::<Point>(old(input).unread(), n as nat, Seq::empty()) == Err::<
                (Seq<Point>, Seq<u8>),
                Error,
            >(e),
        },
{
    let ghost s = input.unread();
    let mut points: Vec<Point> = Vec::new();
    let mut i: u32 = 0;
    while i < n
        invariant
            i <= n,
            s == old(input).unread(),
            parse_n::<Point>(s, n as nat, Seq::empty()) == parse_n::<Point>(
                input.unread(),
                (n - i) as nat,
                points@,
            ),
        decreases n - i,
    {
        let p = Point::read(input)?;
        points.push(p);
        i = i + 1;
    }
    Ok(points)
}

/// Reads `n` face normals.
fn read_normals<I: ReadExt>(input: &mut I, n: u32) -> (r: Result<Vec<(u32, u32, u32)>, Error>)
    ensures
        match r {
            Ok(v) => parse_n::<Normal>(old(input).unread(), n as nat, Seq::empty()) == Ok::<
                (Seq<Normal>, Seq<u8>),
                Error,
            >((v@, final(input).unread())),
            Err(e) => parse_n::<Normal>(old(input).unread(), n as nat, Seq::empty()) == Err::<
                (Seq<Normal>, Seq<u8>),
                Error,
            >(e),
        },
{
    let ghost s = input.unread();
    let mut normals: Vec<(u32, u32, u32)> = Vec::new();
    let mut i: u32 = 0;
    while i < n
        invariant
            i <= n,
            s == old(input).unread(),
            parse_n::<Normal>(s, n as nat, Seq::empty()) == parse_n::<Normal>(
                input.unread(),
                (n - i) as nat,
                normals@,
            ),
        decreases n - i,
    {
        let normal = read_normal(input)?;
        normals.push(normal);
        i = i + 1;
    }
    Ok(normals)
}

/// Reads `n` faces.
fn read_faces<I: ReadExt>(input: &mut I, n: u32) -> (r: Result<Vec<Face>, Error>)
    ensures
        match r {
            Ok(v) => parse_n::<FaceView>(old(input).unread(), n as nat, Seq::empty()) == Ok::<
                (Seq<FaceView>, Seq<u8>),
                Error,
            >((face_views(v@), final(input).unread())),
            Err(e) => parse_n::<FaceView>(old(input).unread(), n as nat, Seq::empty()) == Err::<
                (Seq<FaceView>, Seq<u8>),
                Error,
            >(e),
        },
{
    let ghost s = input.unread();
    let mut faces: Vec<Face> = Vec::new();
    let mut i: u32 = 0;
    assert(face_views(faces@) =~= Seq::<FaceView>::empty());
    while i < n
        invariant
            i <= n,
            s == old(input).unread(),
            parse_n::<FaceView>(s, n as nat, Seq::empty()) == parse_n::<FaceView>(
                input.unread(),
                (n - i) as nat,
                face_views(faces@),
            ),
        decreases n - i,
    {
        let face = Face::read(input)?;
        assert(face_views(faces@.push(face)) =~= face_views(faces@).push(face@));
        faces.push(face);
        i = i + 1;
    }
    Ok(faces)
}

/// Reads a tag table: the bytes `TAGG`, then entries up to the sentinel.
/// The names keep the order in which they were first seen; a name that was
/// seen before keeps its place and gets the later payload.
fn read_taggs<I: ReadExt>(input: &mut I) -> (r: Result<LinkedHashMap<String, Box<[u8]>>, Error>)
    ensures
        match r {
            Ok(m) => parse_tagg_table(old(input).unread()) == Ok::<(Seq<Tagg>, Seq<u8>), Error>(
                (tagg_entries(m), final(input).unread()),
            ),
            Err(e) => parse_tagg_table(old(input).unread()) == Err::<(Seq<Tagg>, Seq<u8>), Error>(
                e,
            ),
        },
{
    let ghost s = input.unread();
    read_magic(input, 0x54, 0x41, 0x47, 0x47)?;
    let closing: String = "#EndOfFile#".to_owned();
    let mut taggs = taggs_new();
    loop
        invariant
            closing@ == sentinel(),
            s == old(input).unread(),
            parse_tagg_table(s) == parse_taggs(input.unread(), tagg_entries(taggs)),
        decreases input.unread().len(),
    {
        let ghost cur = input.unread();
        let _ = input.read_byte();
        proof {
            lemma_parse_cstring_nul_free(input.unread());
        }
        let name = input.read_cstring()?;
        let size = input.read_u32()?;
        let payload = input.read_exact(size as usize)?;
        if name == closing {
            return Ok(taggs);
        }
        if taggs_contains(&taggs, name.as_str()) {
            taggs_replace(&mut taggs, name.as_str(), payload);
        } else {
            proof {
                lemma_without_absent(tagg_entries(taggs), name@);
            }
            taggs_insert(&mut taggs, name, payload);
        }
    }
}

/// Appends the points in order.
fn write_points<O: WriteExt>(points: &Vec<Point>, output: &mut O)
    ensures
        final(output).written() == old(output).written() + encode_all(points@),
{
    let ghost before = output.written();
    let mut i: usize = 0;
    assert(points@.skip(0) =~= points@);
    while i < points.len()
        invariant
            i <= points.len(),
            output.written() + encode_all(points@.skip(i as int)) == before + encode_all(points@),
        decreases points.len() - i,
    {
        proof {
            lemma_encode_all_step(points@, i as int, output.written());
        }
        points[i].write(output);
        i = i + 1;
    }
    assert(output.written() + encode_all(points@.skip(i as int)) =~= output.written());
}

/// Appends the face normals in order.
fn write_normals<O: WriteExt>(normals: &Vec<(u32, u32, u32)>, output: &mut O)
    ensures
        final(output).written() == old(output).written() + encode_all(normals@),
{
    let ghost before = output.written();
    let mut i: usize = 0;
    assert(normals@.skip(0) =~= normals@);
    while i < normals.len()
        invariant
            i <= normals.len(),
            output.written() + encode_all(normals@.skip(i as int)) == before + encode_all(
                normals@,
            ),
        decreases normals.len() - i,
    {
        proof {
            lemma_encode_all_step(normals@, i as int, output.written());
        }
        write_normal(&normals[i], output);
        i = i + 1;
    }
    assert(output.written() + encode_all(normals@.skip(i as int)) =~= output.written());
}

/// Appends the faces in order; stops at the first that cannot be stored.
fn write_faces<O: WriteExt>(faces: &Vec<Face>, output: &mut O) -> (r: Result<(), Error>)
    ensures
        r is Ok <==> faces_storable(face_views(faces@)),
        r is Ok ==> final(output).written() == old(output).written() + encode_all(
            face_views(faces@),
        ),
        r matches Err(e) ==> e == Error::TooLarge,
{
    let ghost before = output.written();
    let ghost views = face_views(faces@);
    let mut i: usize = 0;
    assert(views.skip(0) =~= views);
    while i < faces.len()
        invariant
            i <= faces.len(),
            views == face_views(faces@),
            output.written() + encode_all(views.skip(i as int)) == before + encode_all(views),
            forall|j: int| 0 <= j < i ==> (#[trigger] views[j]).storable(),
        decreases faces.len() - i,
    {
        proof {
            lemma_encode_all_step(views, i as int, output.written());
            assert(views[i as int] == faces@[i as int]@);
        }
        match faces[i].write(output) {
            Ok(()) => {},
            Err(e) => {
                assert(!views[i as int].storable());
                return Err(e);
            },
        }
        i = i + 1;
    }
    assert(output.written() + encode_all(views.skip(i as int)) =~= output.written());
    Ok(())
}

/// Storing the entries from index `i` on starts with entry `i`.
proof fn lemma_encode_entries_step(entries: Seq<Tagg>, i: int, done: Seq<u8>)
    requires
        0 <= i < entries.len(),
    ensures
        done + encode_entries(entries.skip(i)) == (done + encode_tagg(entries[i].0, entries[i].1))
            + encode_entries(entries.skip(i + 1)),
{
    assert(entries.skip(i).skip(1) =~= entries.skip(i + 1));
    lemma_concat_assoc(
        done,
        encode_tagg(entries[i].0, entries[i].1),
        encode_entries(entries.skip(i + 1)),
    );
}

/// Appends one entry of a tag table: the marker byte 1, the name, the
/// length of the payload, and the payload.
fn write_tagg<O: WriteExt>(name: &str, payload: &[u8], output: &mut O) -> (r: Result<(), Error>)
    ensures
        r is Ok <==> payload@.len() <= u32::MAX,
        r is Ok ==> final(output).written() == old(output).written() + encode_tagg(
            name@,
            payload@,
        ),
        r matches Err(e) ==> e == Error::TooLarge,
{
    let ghost before = output.written();
    let n: usize = payload.len();
    if n > 0xffff_ffff {
        return Err(Error::TooLarge);
    }
    output.write_byte(1u8);
    let _ = output.write_cstring(name.as_bytes());
    output.write_u32(n as u32);
    output.write_all(payload);
    proof {
        let mark = seq![1u8];
        let cn = cstring_bytes(name@);
        let size = u32_bytes(n as u32);
        assert(before.push(1u8) =~= before + mark);
        lemma_concat_assoc(before + mark, encode_utf8(name@), seq![0u8]);
        lemma_concat_assoc(before, mark, cn);
        lemma_concat_assoc(before, mark + cn, size);
        lemma_concat_assoc(before, mark + cn + size, payload@);
    }
    Ok(())
}

/// Appends a tag table: the bytes `TAGG`, the entries in the order of the
/// table, and the sentinel entry with an empty payload.
fn write_taggs<O: WriteExt>(taggs: &LinkedHashMap<String, Box<[u8]>>, output: &mut O) -> (r: Result<
    (),
    Error,
>)
    ensures
        r is Ok <==> taggs_storable(tagg_entries(*taggs)),
        r is Ok ==> final(output).written() == old(output).written() + magic_tagg()
            + encode_taggs(tagg_entries(*taggs)),
        r matches Err(e) ==> e == Error::TooLarge,
{
    let ghost before = output.written();
    let ghost entries = tagg_entries(*taggs);
    let magic: [u8; 4] = [0x54, 0x41, 0x47, 0x47];
    output.write_all(magic.as_slice());
    assert(magic@ =~= magic_tagg());
    let ghost head = before + magic_tagg();
    let list = taggs_list(taggs);
    let mut i: usize = 0;
    assert(entries.skip(0) =~= entries);
    while i < list.len()
        invariant
            i <= list.len(),
            entries == tagg_entries(*taggs),
            list@.len() == entries.len(),
            forall|k: int|
                0 <= k < list@.len() ==> (#[trigger] list@[k]).0@ == entries[k].0 && list@[k].1@
                    == entries[k].1,
            output.written() + encode_entries(entries.skip(i as int)) == head + encode_entries(
                entries,
            ),
            forall|j: int| 0 <= j < i ==> (#[trigger] entries[j]).1.len() <= u32::MAX,
        decreases list.len() - i,
    {
        proof {
            lemma_encode_entries_step(entries, i as int, output.written());
            assert(list@[i as int].0@ == entries[i as int].0);
        }
        let name: &str = list[i].0;
        let payload: &[u8] = list[i].1;
        match write_tagg(name, payload, output) {
            Ok(()) => {},
            Err(e) => {
                assert(!(entries[i as int].1.len() <= u32::MAX));
                return Err(e);
            },
        }
        i = i + 1;
    }
    assert(output.written() + encode_entries(entries.skip(i as int)) =~= output.written());
    let ghost listed = output.written();
    let none: [u8; 0] = [];
    match write_tagg("#EndOfFile#", none.as_slice(), output) {
        Ok(()) => {},
        Err(e) => {
            return Err(e);
        },
    }
    proof {
        assert(none@ =~= Seq::<u8>::empty());
        lemma_concat_assoc(head, encode_entries(entries), encode_tagg(sentinel(), Seq::empty()));
        lemma_concat_assoc(before, magic_tagg(), encode_taggs(entries));
    }
    Ok(())
}

impl LOD {
    /// Reads one level of detail: the bytes `P3DM`, the version, the three
    /// counts, four reserved bytes (dropped), the points, normals and faces,
    /// the tag table, and the resolution.
    pub fn read<I: ReadExt>(input: &mut I) -> (r: Result<LOD, Error>)
        ensures
            match r {
                Ok(l) => LodView::parse(old(input).unread()) == Ok::<(LodView, Seq<u8>), Error>(
                    (l@, final(input).unread()),
                ),
                Err(e) => LodView::parse(old(input).unread()) == Err::<
                    (LodView, Seq<u8>),
                    Error,
                >(e),
            },
    {
        let ghost s = input.unread();
        read_magic(input, 0x50, 0x33, 0x44, 0x4d)?;
        let version_major = input.read_u32()?;
        let version_minor = input.read_u32()?;
        let num_points = input.read_u32()?;
        let num_face_normals = input.read_u32()?;
        let num_faces = input.read_u32()?;
        let _ = input.read_exact(4)?;
        proof {
            assert(input.unread() =~= s.skip(28));
            assert(u32_at(s.take(28), 4) == version_major);
            assert(u32_at(s.take(28), 8) == version_minor);
        }
        let points = read_points(input, num_points)?;
        let face_normals = read_normals(input, num_face_normals)?;
        let faces = read_faces(input, num_faces)?;
        let taggs = read_taggs(input)?;
        let resolution = input.read_u32()?;
        Ok(
            LOD {
                version_major,
                version_minor,
                resolution,
                points,
                face_normals,
                faces,
                taggs,
            },
        )
    }

    /// Appends the level of detail, with counts taken from the lengths of
    /// its sequences and four zero bytes in the reserved field. Fails, with
    /// part of it written, if a count or length does not fit 32 bits.
    pub fn write<O: WriteExt>(&self, output: &mut O) -> (r: Result<(), Error>)
        ensures
            r is Ok <==> self@.storable(),
            r is Ok ==> final(output).written() == old(output).written() + self@.encode(),
            r matches Err(e) ==> e == Error::TooLarge,
    {
        let ghost before = output.written();
        let np: usize = self.points.len();
        let nn: usize = self.face_normals.len();
        let nf: usize = self.faces.len();
        if np > 0xffff_ffff || nn > 0xffff_ffff || nf > 0xffff_ffff {
            return Err(Error::TooLarge);
        }
        let magic: [u8; 4] = [0x50, 0x33, 0x44, 0x4d];
        let reserved: [u8; 4] = [0, 0, 0, 0];
        output.write_all(magic.as_slice());
        output.write_u32(self.version_major);
        output.write_u32(self.version_minor);
        output.write_u32(np as u32);
        output.write_u32(nn as u32);
        output.write_u32(nf as u32);
        output.write_all(reserved.as_slice());
        proof {
            let m = magic_p3dm();
            let a = u32_bytes(self.version_major);
            let b = u32_bytes(self.version_minor);
            let c = u32_bytes(np as u32);
            let d = u32_bytes(nn as u32);
            let e = u32_bytes(nf as u32);
            let z = seq![0u8, 0u8, 0u8, 0u8];
            assert(magic@ =~= m);
            assert(reserved@ =~= z);
            lemma_concat_assoc(before, m, a);
            lemma_concat_assoc(before, m + a, b);
            lemma_concat_assoc(before, m + a + b, c);
            lemma_concat_assoc(before, m + a + b + c, d);
            lemma_concat_assoc(before, m + a + b + c + d, e);
            lemma_concat_assoc(before, m + a + b + c + d + e, z);
            assert(output.written() == before + self@.encode_header());
        }
        write_points(&self.points, output);
        write_normals(&self.face_normals, output);
        let ghost h = self@.encode_header();
        let ghost pp = encode_all(self.points@);
        let ghost nb = encode_all(self.face_normals@);
        let ghost fb = encode_all(face_views(self.faces@));
        proof {
            lemma_concat_assoc(before, h, pp);
            lemma_concat_assoc(before, h + pp, nb);
        }
        write_faces(&self.faces, output)?;
        proof {
            lemma_concat_assoc(before, h + pp + nb, fb);
        }
        write_taggs(&self.taggs, output)?;
        output.write_u32(self.resolution);
        proof {
            let g = magic_tagg();
            let tt = encode_taggs(tagg_entries(self.taggs));
            lemma_concat_assoc(before, h + pp + nb + fb, g);
            lemma_concat_assoc(before, h + pp + nb + fb + g, tt);
            lemma_concat_assoc(
                before,
                h + pp + nb + fb + g + tt,
                u32_bytes(self.resolution),
            );
        }
        Ok(())
    }
}

impl LOD {
    /// Gives the first `count` faces the same texture and material paths;
    /// nothing else changes.
    pub fn set_paths(&mut self, count: usize, texture: &str, material: &str)
        requires
            count <= old(self).faces@.len(),
        ensures
            final(self).faces@.len() == old(self).faces@.len(),
            forall|i: int|
                0 <= i < count ==> {
                    &&& (#[trigger] final(self).faces@[i]).texture@ == texture@
                    &&& final(self).faces@[i].material@ == material@
                },
            forall|i: int|
                count <= i < old(self).faces@.len() ==> {
                    &&& (#[trigger] final(self).faces@[i]).texture@ == old(self).faces@[i].texture@
                    &&& final(self).faces@[i].material@ == old(self).faces@[i].material@
                },
            forall|i: int|
                0 <= i < old(self).faces@.len() ==> {
                    &&& (#[trigger] final(self).faces@[i]).vertices == old(self).faces@[i].vertices
                    &&& final(self).faces@[i].flags == old(self).faces@[i].flags
                },
            final(self).version_major == old(self).version_major,
            final(self).version_minor == old(self).version_minor,
            final(self).resolution == old(self).resolution,
            final(self).points == old(self).points,
            final(self).face_normals == old(self).face_normals,
            final(self).taggs == old(self).taggs,
    {
        let ghost n = self.faces@.len();
        let mut i: usize = 0;
        while i < count
            invariant
                i <= count <= n,
                n == self.faces@.len(),
                n == old(self).faces@.len(),
                forall|j: int|
                    0 <= j < i ==> {
                        &&& (#[trigger] self.faces@[j]).texture@ == texture@
                        &&& self.faces@[j].material@ == material@
                    },
                forall|j: int|
                    i <= j < n ==> {
                        &&& (#[trigger] self.faces@[j]).texture@ == old(self).faces@[j].texture@
                        &&& self.faces@[j].material@ == old(self).faces@[j].material@
                    },
                forall|j: int|
                    0 <= j < n ==> {
                        &&& (#[trigger] self.faces@[j]).vertices == old(self).faces@[j].vertices
                        &&& self.faces@[j].flags == old(self).faces@[j].flags
                    },
                self.version_major == old(self).version_major,
                self.version_minor == old(self).version_minor,
                self.resolution == old(self).resolution,
                self.points == old(self).points,
                self.face_normals == old(self).face_normals,
                self.taggs == old(self).taggs,
            decreases count - i,
        {
            self.faces[i].texture = texture.to_owned();
            self.faces[i].material = material.to_owned();
            i = i + 1;
        }
    }
}

/// Reads `n` levels of detail.
fn read_lods<I: ReadExt>(input: &mut I, n: u32) -> (r: Result<Vec<LOD>, Error>)
    ensures
        match r {
            Ok(v) => parse_n::<LodView>(old(input).unread(), n as nat, Seq::empty()) == Ok::<
                (Seq<LodView>, Seq<u8>),
                Error,
            >((lod_views(v@), final(input).unread())),
            Err(e) => parse_n::<LodView>(old(input).unread(), n as nat, Seq::empty()) == Err::<
                (Seq<LodView>, Seq<u8>),
                Error,
            >(e),
        },
{
    let ghost s = input.unread();
    let mut lods: Vec<LOD> = Vec::new();
    let mut i: u32 = 0;
    assert(lod_views(lods@) =~= Seq::<LodView>::empty());
    while i < n
        invariant
            i <= n,
            s == old(input).unread(),
            parse_n::<LodView>(s, n as nat, Seq::empty()) == parse_n::<LodView>(
                input.unread(),
                (n - i) as nat,
                lod_views(lods@),
            ),
        decreases n - i,
    {
        let lod = LOD::read(input)?;
        assert(lod_views(lods@.push(lod)) =~= lod_views(lods@).push(lod@));
        lods.push(lod);
        i = i + 1;
    }
    Ok(lods)
}

/// Appends the levels of detail in order; stops at the first that cannot be stored.
fn write_lods<O: WriteExt>(lods: &Vec<LOD>, output: &mut O) -> (r: Result<(), Error>)
    ensures
        r is Ok <==> lods_storable(lod_views(lods@)),
        r is Ok ==> final(output).written() == old(output).written() + encode_all(
            lod_views(lods@),
        ),
        r matches Err(e) ==> e == Error::TooLarge,
{
    let ghost before = output.written();
    let ghost views = lod_views(lods@);
    let mut i: usize = 0;
    assert(views.skip(0) =~= views);
    while i < lods.len()
        invariant
            i <= lods.len(),
            views == lod_views(lods@),
            output.written() + encode_all(views.skip(i as int)) == before + encode_all(views),
            forall|j: int| 0 <= j < i ==> (#[trigger] views[j]).storable(),
        decreases lods.len() - i,
    {
        proof {
            lemma_encode_all_step(views, i as int, output.written());
            assert(views[i as int] == lods@[i as int]@);
        }
        match lods[i].write(output) {
            Ok(()) => {},
            Err(e) => {
                assert(!views[i as int].storable());
                return Err(e);
            },
        }
        i = i + 1;
    }
    assert(output.written() + encode_all(views.skip(i as int)) =~= output.written());
    Ok(())
}

impl P3D {
    /// Reads a document: the bytes `MLOD`, the version, the number of
    /// levels of detail, and that many levels of detail. Nothing is returned
    /// unless all of it was read. Where the first four bytes are not `MLOD`,
    /// nothing after them is consumed.
    pub fn read<I: ReadExt>(input: &mut I) -> (r: Result<P3D, Error>)
        ensures
            match r {
                Ok(d) => P3DView::parse(old(input).unread()) == Ok::<(P3DView, Seq<u8>), Error>(
                    (d@, final(input).unread()),
                ) && d@.well_formed(),
                Err(e) => P3DView::parse(old(input).unread()) == Err::<
                    (P3DView, Seq<u8>),
                    Error,
                >(e),
            },
            old(input).unread().len() >= 4 && old(input).unread().take(4) != magic_mlod() ==> r
                == Err::<P3D, Error>(Error::BadMagic) && final(input).unread() == old(
                input,
            ).unread().skip(4),
    {
        let ghost s = input.unread();
        proof {
            P3DView::lemma_parse_well_formed(s);
        }
        read_magic(input, 0x4d, 0x4c, 0x4f, 0x44)?;
        let version = input.read_u32()?;
        let num_lods = input.read_u32()?;
        assert(input.unread() =~= s.skip(12));
        let lods = read_lods(input, num_lods)?;
        Ok(P3D { version, lods })
    }

    /// Appends the document, with the number of levels of detail taken
    /// from the length of the sequence. Fails, with part of the document
    /// written, if a count or length does not fit 32 bits.
    pub fn write<O: WriteExt>(&self, output: &mut O) -> (r: Result<(), Error>)
        ensures
            r is Ok <==> self@.storable(),
            r is Ok ==> final(output).written() == old(output).written() + self@.encode(),
            r matches Err(e) ==> e == Error::TooLarge,
    {
        let ghost before = output.written();
        let n: usize = self.lods.len();
        if n > 0xffff_ffff {
            return Err(Error::TooLarge);
        }
        let magic: [u8; 4] = [0x4d, 0x4c, 0x4f, 0x44];
        output.write_all(magic.as_slice());
        output.write_u32(self.version);
        output.write_u32(n as u32);
        proof {
            let m = magic_mlod();
            assert(magic@ =~= m);
            lemma_concat_assoc(before, m, u32_bytes(self.version));
            lemma_concat_assoc(before, m + u32_bytes(self.version), u32_bytes(n as u32));
        }
        write_lods(&self.lods, output)?;
        proof {
            lemma_concat_assoc(
                before,
                magic_mlod() + u32_bytes(self.version) + u32_bytes(n as u32),
                encode_all(lod_views(self.lods@)),
            );
        }
        Ok(())
    }
}

} // verus!
