use crate::error::Error;
use crate::io::{
    cstring_body, cstring_bytes, cstring_rest, lemma_parse_cstring_bytes,
    lemma_parse_cstring_nul_free, nul_free,
};
use crate::le::{
    lemma_concat_assoc, lemma_prefix_split, lemma_skip_none, lemma_u32_at_bytes,
    lemma_word_prefix, u32_at, u32_bytes,
};
use crate::p3d::{Point, Vertex};
use crate::record::{
    all_well_formed, encode_all, lemma_parse_n_encode_all, lemma_parse_n_well_formed, parse_n,
    Record,
};
use crate::taggs::{
    encode_taggs, lemma_parse_taggs_encode, lemma_parse_taggs_well_formed, parse_taggs,
    taggs_storable, taggs_well_formed, Tagg,
};
use vstd::prelude::*;
use vstd::utf8::{decode_utf8, valid_utf8};

verus! {

/// A face normal: three single-precision numbers, held as their bit patterns.
pub type Normal = (u32, u32, u32);

/// The bytes `MLOD` that open a document.
pub open spec fn magic_mlod() -> Seq<u8> {
    seq![0x4du8, 0x4cu8, 0x4fu8, 0x44u8]
}

/// The bytes `P3DM` that open a level of detail.
pub open spec fn magic_p3dm() -> Seq<u8> {
    seq![0x50u8, 0x33u8, 0x44u8, 0x4du8]
}

/// The bytes `TAGG` that open a tag table.
pub open spec fn magic_tagg() -> Seq<u8> {
    seq![0x54u8, 0x41u8, 0x47u8, 0x47u8]
}

/// The point stored in the 16 bytes at offset `off` of `s`.
pub open spec fn point_at(s: Seq<u8>, off: int) -> Point {
    Point {
        coords: (u32_at(s, off), u32_at(s, off + 4), u32_at(s, off + 8)),
        flags: u32_at(s, off + 12),
    }
}

/// The vertex stored in the 16 bytes at offset `off` of `s`.
pub open spec fn vertex_at(s: Seq<u8>, off: int) -> Vertex {
    Vertex {
        point_index: u32_at(s, off),
        normal_index: u32_at(s, off + 4),
        uv: (u32_at(s, off + 8), u32_at(s, off + 12)),
    }
}

/// The vertex that fills the fourth slot of a stored triangle.
pub open spec fn padding_vertex() -> Vertex {
    Vertex { point_index: 0, normal_index: 0, uv: (0, 0) }
}

/// Four 32-bit values stored one after the other at offset `off` are read
/// back at `off`, `off + 4`, `off + 8` and `off + 12`.
pub proof fn lemma_four_words(a: u32, b: u32, c: u32, d: u32, rest: Seq<u8>, s: Seq<u8>, off: int)
    requires
        0 <= off <= s.len(),
        s.skip(off) == (u32_bytes(a) + u32_bytes(b) + u32_bytes(c) + u32_bytes(d)) + rest,
    ensures
        off + 16 <= s.len(),
        u32_at(s, off) == a,
        u32_at(s, off + 4) == b,
        u32_at(s, off + 8) == c,
        u32_at(s, off + 12) == d,
        s.skip(off + 16) == rest,
        (u32_bytes(a) + u32_bytes(b) + u32_bytes(c) + u32_bytes(d)).len() == 16,
{
    let wa = u32_bytes(a);
    let wb = u32_bytes(b);
    let wc = u32_bytes(c);
    let wd = u32_bytes(d);
    lemma_u32_at_bytes(a, rest);
    lemma_u32_at_bytes(b, rest);
    lemma_u32_at_bytes(c, rest);
    lemma_u32_at_bytes(d, rest);
    lemma_concat_assoc(wa + wb + wc, wd, rest);
    lemma_concat_assoc(wa + wb, wc, wd + rest);
    lemma_concat_assoc(wa, wb, wc + (wd + rest));
    lemma_word_prefix(a, wb + (wc + (wd + rest)), s, off);
    lemma_word_prefix(b, wc + (wd + rest), s, off + 4);
    lemma_word_prefix(c, wd + rest, s, off + 8);
    lemma_word_prefix(d, rest, s, off + 12);
}

impl Record for Point {
    open spec fn well_formed(self) -> bool {
        true
    }

    open spec fn encode(self) -> Seq<u8> {
        u32_bytes(self.coords.0) + u32_bytes(self.coords.1) + u32_bytes(self.coords.2) + u32_bytes(
            self.flags,
        )
    }

    open spec fn parse(s: Seq<u8>) -> Result<(Self, Seq<u8>), Error> {
        if s.len() < 16 {
            Err(Error::UnexpectedEof)
        } else {
            Ok((point_at(s, 0), s.skip(16)))
        }
    }

    proof fn lemma_parse_encode(self, tail: Seq<u8>) {
        let s = self.encode() + tail;
        lemma_skip_none(s);
        lemma_four_words(self.coords.0, self.coords.1, self.coords.2, self.flags, tail, s, 0);
    }

    proof fn lemma_parse_well_formed(s: Seq<u8>) {
    }
}

impl Record for Vertex {
    open spec fn well_formed(self) -> bool {
        true
    }

    open spec fn encode(self) -> Seq<u8> {
        u32_bytes(self.point_index) + u32_bytes(self.normal_index) + u32_bytes(self.uv.0)
            + u32_bytes(self.uv.1)
    }

    open spec fn parse(s: Seq<u8>) -> Result<(Self, Seq<u8>), Error> {
        if s.len() < 16 {
            Err(Error::UnexpectedEof)
        } else {
            Ok((vertex_at(s, 0), s.skip(16)))
        }
    }

    proof fn lemma_parse_encode(self, tail: Seq<u8>) {
        let s = self.encode() + tail;
        lemma_skip_none(s);
        lemma_vertex_prefix(self, tail, s, 0);
    }

    proof fn lemma_parse_well_formed(s: Seq<u8>) {
    }
}

impl Record for Normal {
    open spec fn well_formed(self) -> bool {
        true
    }

    open spec fn encode(self) -> Seq<u8> {
        u32_bytes(self.0) + u32_bytes(self.1) + u32_bytes(self.2)
    }

    open spec fn parse(s: Seq<u8>) -> Result<(Self, Seq<u8>), Error> {
        if s.len() < 12 {
            Err(Error::UnexpectedEof)
        } else {
            Ok(((u32_at(s, 0), u32_at(s, 4), u32_at(s, 8)), s.skip(12)))
        }
    }

    proof fn lemma_parse_encode(self, tail: Seq<u8>) {
        let s = self.encode() + tail;
        let wb = u32_bytes(self.1);
        let wc = u32_bytes(self.2);
        lemma_skip_none(s);
        lemma_concat_assoc(u32_bytes(self.0) + wb, wc, tail);
        lemma_concat_assoc(u32_bytes(self.0), wb, wc + tail);
        lemma_word_prefix(self.0, wb + (wc + tail), s, 0);
        lemma_word_prefix(self.1, wc + tail, s, 4);
        lemma_word_prefix(self.2, tail, s, 8);
    }

    proof fn lemma_parse_well_formed(s: Seq<u8>) {
    }
}

/// What a face holds: three or four vertices, flags, and the paths of its
/// texture and material.
pub ghost struct FaceView {
    pub vertices: Seq<Vertex>,
    pub flags: u32,
    pub texture: Seq<char>,
    pub material: Seq<char>,
}

impl FaceView {
    /// The vertex count fits the 32-bit field that stores it.
    pub open spec fn storable(self) -> bool {
        self.vertices.len() <= u32::MAX
    }

    /// The padding slot that follows the vertices of a triangle; nothing otherwise.
    pub open spec fn padding(self) -> Seq<u8> {
        if self.vertices.len() == 3 {
            padding_vertex().encode()
        } else {
            Seq::empty()
        }
    }

    /// The vertex that stands in the fourth slot of the stored face.
    pub open spec fn fourth_slot(self) -> Vertex {
        if self.vertices.len() == 4 {
            self.vertices[3]
        } else {
            padding_vertex()
        }
    }

    /// The vertex count and the vertex slots.
    pub open spec fn encode_vertices(self) -> Seq<u8> {
        u32_bytes(self.vertices.len() as u32) + encode_all(self.vertices) + self.padding()
    }
}

/// The vertex slots of a face with three or four vertices are four vertex
/// records: its own, and the padding vertex in the fourth slot of a triangle.
pub proof fn lemma_face_slots(f: FaceView)
    requires
        f.vertices.len() == 3 || f.vertices.len() == 4,
    ensures
        encode_all(f.vertices) + f.padding() == f.vertices[0].encode() + f.vertices[1].encode()
            + f.vertices[2].encode() + f.fourth_slot().encode(),
{
    let v = f.vertices;
    let v1 = v.skip(1);
    let v2 = v1.skip(1);
    let v3 = v2.skip(1);
    assert(encode_all(v) == v[0].encode() + encode_all(v1));
    assert(encode_all(v1) == v1[0].encode() + encode_all(v2));
    assert(encode_all(v2) == v2[0].encode() + encode_all(v3));
    if v.len() == 4 {
        let v4 = v3.skip(1);
        assert(encode_all(v3) == v3[0].encode() + encode_all(v4));
        assert(encode_all(v4) =~= Seq::<u8>::empty());
        assert(encode_all(v) + f.padding() =~= v[0].encode() + v[1].encode() + v[2].encode()
            + v[3].encode());
    } else {
        assert(encode_all(v3) =~= Seq::<u8>::empty());
        assert(encode_all(v) + f.padding() =~= v[0].encode() + v[1].encode() + v[2].encode()
            + padding_vertex().encode());
    }
}

/// Where the stream from offset `off` on starts with the bytes of `v`, the
/// vertex read at `off` is `v`.
pub proof fn lemma_vertex_prefix(v: Vertex, rest: Seq<u8>, s: Seq<u8>, off: int)
    requires
        0 <= off <= s.len(),
        s.skip(off) == v.encode() + rest,
    ensures
        off + 16 <= s.len(),
        vertex_at(s, off) == v,
        s.skip(off + 16) == rest,
        v.encode().len() == 16,
{
    lemma_four_words(v.point_index, v.normal_index, v.uv.0, v.uv.1, rest, s, off);
}

/// A stored face followed by `tail`, piece by piece from the front.
pub proof fn lemma_face_nested(f: FaceView, tail: Seq<u8>)
    requires
        f.vertices.len() == 3 || f.vertices.len() == 4,
    ensures
        f.encode() + tail == u32_bytes(f.vertices.len() as u32) + (f.vertices[0].encode() + (
        f.vertices[1].encode() + (f.vertices[2].encode() + (f.fourth_slot().encode() + (u32_bytes(
            f.flags,
        ) + (cstring_bytes(f.texture) + (cstring_bytes(f.material) + tail))))))),
{
    let v = f.vertices;
    let a = u32_bytes(v.len() as u32);
    let b = v[0].encode();
    let c = v[1].encode();
    let d = v[2].encode();
    let e = f.fourth_slot().encode();
    let g = u32_bytes(f.flags);
    let ct = cstring_bytes(f.texture);
    let cm = cstring_bytes(f.material);
    let ev = f.encode_vertices();
    lemma_face_slots(f);
    let r1 = cm + tail;
    let r2 = ct + r1;
    let r3 = g + r2;
    let r4 = e + r3;
    let r5 = d + r4;
    let r6 = c + r5;
    lemma_concat_assoc(ev + g + ct, cm, tail);
    lemma_concat_assoc(ev + g, ct, r1);
    lemma_concat_assoc(ev, g, r2);
    lemma_concat_assoc(a, encode_all(v), f.padding());
    lemma_concat_assoc(a, b + c + d + e, r3);
    lemma_concat_assoc(b + c + d, e, r3);
    lemma_concat_assoc(b + c, d, r4);
    lemma_concat_assoc(b, c, r5);
}

/// What stands where in a stored face that is followed by `tail`.
pub proof fn lemma_face_layout(f: FaceView, tail: Seq<u8>)
    requires
        f.vertices.len() == 3 || f.vertices.len() == 4,
    ensures
        ({
            let s = f.encode() + tail;
            &&& s.len() >= 72
            &&& u32_at(s, 0) == f.vertices.len()
            &&& vertex_at(s, 4) == f.vertices[0]
            &&& vertex_at(s, 20) == f.vertices[1]
            &&& vertex_at(s, 36) == f.vertices[2]
            &&& vertex_at(s, 52) == f.fourth_slot()
            &&& u32_at(s, 68) == f.flags
            &&& s.skip(72) == cstring_bytes(f.texture) + (cstring_bytes(f.material) + tail)
        }),
{
    let s = f.encode() + tail;
    let v = f.vertices;
    let strings = cstring_bytes(f.texture) + (cstring_bytes(f.material) + tail);
    let r3 = u32_bytes(f.flags) + strings;
    let r4 = f.fourth_slot().encode() + r3;
    let r5 = v[2].encode() + r4;
    let r6 = v[1].encode() + r5;
    let r7 = v[0].encode() + r6;
    lemma_face_nested(f, tail);
    lemma_skip_none(s);
    lemma_word_prefix(v.len() as u32, r7, s, 0);
    lemma_vertex_prefix(v[0], r6, s, 4);
    lemma_vertex_prefix(v[1], r5, s, 20);
    lemma_vertex_prefix(v[2], r4, s, 36);
    lemma_vertex_prefix(f.fourth_slot(), r3, s, 52);
    lemma_word_prefix(f.flags, strings, s, 68);
}

impl Record for FaceView {
    open spec fn well_formed(self) -> bool {
        &&& (self.vertices.len() == 3 || self.vertices.len() == 4)
        &&& nul_free(self.texture)
        &&& nul_free(self.material)
    }

    open spec fn encode(self) -> Seq<u8> {
        self.encode_vertices() + u32_bytes(self.flags) + cstring_bytes(self.texture)
            + cstring_bytes(self.material)
    }

    open spec fn parse(s: Seq<u8>) -> Result<(Self, Seq<u8>), Error> {
        if s.len() < 4 {
            Err(Error::UnexpectedEof)
        } else if u32_at(s, 0) != 3 && u32_at(s, 0) != 4 {
            Err(Error::BadVertexCount)
        } else if s.len() < 72 {
            Err(Error::UnexpectedEof)
        } else if !valid_utf8(cstring_body(s.skip(72))) {
            Err(Error::InvalidUtf8)
        } else if !valid_utf8(cstring_body(cstring_rest(s.skip(72)))) {
            Err(Error::InvalidUtf8)
        } else {
            Ok(
                (
                    FaceView {
                        vertices: if u32_at(s, 0) == 3 {
                            seq![vertex_at(s, 4), vertex_at(s, 20), vertex_at(s, 36)]
                        } else {
                            seq![
                                vertex_at(s, 4),
                                vertex_at(s, 20),
                                vertex_at(s, 36),
                                vertex_at(s, 52),
                            ]
                        },
                        flags: u32_at(s, 68),
                        texture: decode_utf8(cstring_body(s.skip(72))),
                        material: decode_utf8(cstring_body(cstring_rest(s.skip(72)))),
                    },
                    cstring_rest(cstring_rest(s.skip(72))),
                ),
            )
        }
    }

    proof fn lemma_parse_encode(self, tail: Seq<u8>) {
        let s = self.encode() + tail;
        lemma_face_layout(self, tail);
        lemma_parse_cstring_bytes(self.texture, cstring_bytes(self.material) + tail);
        lemma_parse_cstring_bytes(self.material, tail);
        let got = Self::parse(s)->Ok_0.0;
        assert(got.vertices =~= self.vertices);
    }

    proof fn lemma_parse_well_formed(s: Seq<u8>) {
        if s.len() >= 72 {
            lemma_parse_cstring_nul_free(s.skip(72));
            lemma_parse_cstring_nul_free(cstring_rest(s.skip(72)));
        }
    }
}

/// What a level of detail holds. The resolution is a single-precision
/// number, held as its bit pattern.
pub ghost struct LodView {
    pub version_major: u32,
    pub version_minor: u32,
    pub resolution: u32,
    pub points: Seq<Point>,
    pub face_normals: Seq<Normal>,
    pub faces: Seq<FaceView>,
    pub taggs: Seq<Tagg>,
}

/// Every face of `faces` has a vertex count that fits its field.
pub open spec fn faces_storable(faces: Seq<FaceView>) -> bool {
    forall|i: int| 0 <= i < faces.len() ==> (#[trigger] faces[i]).storable()
}

/// Reads a tag table: the bytes `TAGG`, then entries up to the sentinel.
pub open spec fn parse_tagg_table(s: Seq<u8>) -> Result<(Seq<Tagg>, Seq<u8>), Error> {
    if s.len() < 4 {
        Err(Error::UnexpectedEof)
    } else if s.take(4) != magic_tagg() {
        Err(Error::BadMagic)
    } else {
        parse_taggs(s.skip(4), Seq::empty())
    }
}

impl LodView {
    /// All counts and lengths fit the 32-bit fields that store them.
    pub open spec fn storable(self) -> bool {
        &&& self.points.len() <= u32::MAX
        &&& self.face_normals.len() <= u32::MAX
        &&& self.faces.len() <= u32::MAX
        &&& faces_storable(self.faces)
        &&& taggs_storable(self.taggs)
    }

    /// The 28 bytes that open a stored level of detail: magic, version, the
    /// three counts, and four reserved zero bytes.
    pub open spec fn encode_header(self) -> Seq<u8> {
        magic_p3dm() + u32_bytes(self.version_major) + u32_bytes(self.version_minor) + u32_bytes(
            self.points.len() as u32,
        ) + u32_bytes(self.face_normals.len() as u32) + u32_bytes(self.faces.len() as u32)
            + seq![0u8, 0u8, 0u8, 0u8]
    }

    /// What follows the faces in a stream `s` that holds a level of detail:
    /// the tag table and the resolution.
    pub open spec fn parse_trailer(
        s: Seq<u8>,
        header: Seq<u8>,
        points: Seq<Point>,
        face_normals: Seq<Normal>,
        faces: Seq<FaceView>,
    ) -> Result<(LodView, Seq<u8>), Error> {
        match parse_tagg_table(s) {
            Err(e) => Err(e),
            Ok((taggs, rest)) => if rest.len() < 4 {
                Err(Error::UnexpectedEof)
            } else {
                Ok(
                    (
                        LodView {
                            version_major: u32_at(header, 4),
                            version_minor: u32_at(header, 8),
                            resolution: u32_at(rest, 0),
                            points,
                            face_normals,
                            faces,
                            taggs,
                        },
                        rest.skip(4),
                    ),
                )
            },
        }
    }
}

impl Record for LodView {
    open spec fn well_formed(self) -> bool {
        &&& self.points.len() <= u32::MAX
        &&& self.face_normals.len() <= u32::MAX
        &&& self.faces.len() <= u32::MAX
        &&& all_well_formed(self.faces)
        &&& taggs_well_formed(self.taggs)
    }

    open spec fn encode(self) -> Seq<u8> {
        self.encode_header() + encode_all(self.points) + encode_all(self.face_normals)
            + encode_all(self.faces) + magic_tagg() + encode_taggs(self.taggs) + u32_bytes(
            self.resolution,
        )
    }

    open spec fn parse(s: Seq<u8>) -> Result<(Self, Seq<u8>), Error> {
        if s.len() < 4 {
            Err(Error::UnexpectedEof)
        } else if s.take(4) != magic_p3dm() {
            Err(Error::BadMagic)
        } else if s.len() < 28 {
            Err(Error::UnexpectedEof)
        } else {
            match parse_n::<Point>(s.skip(28), u32_at(s, 12) as nat, Seq::empty()) {
                Err(e) => Err(e),
                Ok((points, s1)) => match parse_n::<Normal>(
                    s1,
                    u32_at(s, 16) as nat,
                    Seq::empty(),
                ) {
                    Err(e) => Err(e),
                    Ok((face_normals, s2)) => match parse_n::<FaceView>(
                        s2,
                        u32_at(s, 20) as nat,
                        Seq::empty(),
                    ) {
                        Err(e) => Err(e),
                        Ok((faces, s3)) => Self::parse_trailer(
                            s3,
                            s.take(28),
                            points,
                            face_normals,
                            faces,
                        ),
                    },
                },
            }
        }
    }

    proof fn lemma_parse_encode(self, tail: Seq<u8>) {
        let s = self.encode() + tail;
        let closing = u32_bytes(self.resolution) + tail;
        let s3 = magic_tagg() + (encode_taggs(self.taggs) + closing);
        let s2 = encode_all(self.faces) + s3;
        let s1 = encode_all(self.face_normals) + s2;
        lemma_lod_layout(self, tail);
        let none_p = Seq::<Point>::empty();
        let none_n = Seq::<Normal>::empty();
        let none_f = Seq::<FaceView>::empty();
        lemma_parse_n_encode_all(self.points, s1, none_p);
        assert(none_p + self.points =~= self.points);
        lemma_parse_n_encode_all(self.face_normals, s2, none_n);
        assert(none_n + self.face_normals =~= self.face_normals);
        lemma_parse_n_encode_all(self.faces, s3, none_f);
        assert(none_f + self.faces =~= self.faces);
        lemma_tagg_table_layout(self.taggs, closing);
        lemma_skip_none(closing);
        lemma_word_prefix(self.resolution, tail, closing, 0);
    }

    proof fn lemma_parse_well_formed(s: Seq<u8>) {
        if s.len() >= 28 {
            let none_p = Seq::<Point>::empty();
            let none_n = Seq::<Normal>::empty();
            let none_f = Seq::<FaceView>::empty();
            lemma_parse_n_well_formed::<Point>(s.skip(28), u32_at(s, 12) as nat, none_p);
            match parse_n::<Point>(s.skip(28), u32_at(s, 12) as nat, none_p) {
                Err(e) => {},
                Ok((points, s1)) => {
                    lemma_parse_n_well_formed::<Normal>(s1, u32_at(s, 16) as nat, none_n);
                    match parse_n::<Normal>(s1, u32_at(s, 16) as nat, none_n) {
                        Err(e) => {},
                        Ok((face_normals, s2)) => {
                            lemma_parse_n_well_formed::<FaceView>(
                                s2,
                                u32_at(s, 20) as nat,
                                none_f,
                            );
                            match parse_n::<FaceView>(s2, u32_at(s, 20) as nat, none_f) {
                                Err(e) => {},
                                Ok((faces, s3)) => {
                                    if s3.len() >= 4 {
                                        lemma_parse_taggs_well_formed(s3.skip(4), Seq::empty());
                                    }
                                },
                            }
                        },
                    }
                },
            }
        }
    }
}

/// A stored level of detail followed by `tail`, piece by piece from the front.
pub proof fn lemma_lod_nested(v: LodView, tail: Seq<u8>)
    ensures
        v.encode() + tail == magic_p3dm() + (u32_bytes(v.version_major) + (u32_bytes(
            v.version_minor,
        ) + (u32_bytes(v.points.len() as u32) + (u32_bytes(v.face_normals.len() as u32) + (
        u32_bytes(v.faces.len() as u32) + (seq![0u8, 0u8, 0u8, 0u8] + (encode_all(v.points) + (
        encode_all(v.face_normals) + (encode_all(v.faces) + (magic_tagg() + (encode_taggs(v.taggs)
            + (u32_bytes(v.resolution) + tail)))))))))))),
{
    let m = magic_p3dm();
    let a = u32_bytes(v.version_major);
    let b = u32_bytes(v.version_minor);
    let c = u32_bytes(v.points.len() as u32);
    let d = u32_bytes(v.face_normals.len() as u32);
    let e = u32_bytes(v.faces.len() as u32);
    let z = seq![0u8, 0u8, 0u8, 0u8];
    let pp = encode_all(v.points);
    let nn = encode_all(v.face_normals);
    let ff = encode_all(v.faces);
    let g = magic_tagg();
    let tt = encode_taggs(v.taggs);
    let rr = u32_bytes(v.resolution);
    let h = v.encode_header();
    let r1 = rr + tail;
    let r2 = tt + r1;
    let r3 = g + r2;
    let r4 = ff + r3;
    let r5 = nn + r4;
    let r6 = pp + r5;
    let r7 = z + r6;
    let r8 = e + r7;
    let r9 = d + r8;
    let r10 = c + r9;
    let r11 = b + r10;
    lemma_concat_assoc(h + pp + nn + ff + g + tt, rr, tail);
    lemma_concat_assoc(h + pp + nn + ff + g, tt, r1);
    lemma_concat_assoc(h + pp + nn + ff, g, r2);
    lemma_concat_assoc(h + pp + nn, ff, r3);
    lemma_concat_assoc(h + pp, nn, r4);
    lemma_concat_assoc(h, pp, r5);
    lemma_concat_assoc(m + a + b + c + d + e, z, r6);
    lemma_concat_assoc(m + a + b + c + d, e, r7);
    lemma_concat_assoc(m + a + b + c, d, r8);
    lemma_concat_assoc(m + a + b, c, r9);
    lemma_concat_assoc(m + a, b, r10);
    lemma_concat_assoc(m, a, r11);
}

/// What stands where in the header of a stored level of detail that is
/// followed by `tail`.
pub proof fn lemma_lod_layout(v: LodView, tail: Seq<u8>)
    ensures
        ({
            let s = v.encode() + tail;
            &&& s.len() >= 28
            &&& s.take(4) == magic_p3dm()
            &&& u32_at(s.take(28), 4) == v.version_major
            &&& u32_at(s.take(28), 8) == v.version_minor
            &&& u32_at(s, 12) == v.points.len() as u32
            &&& u32_at(s, 16) == v.face_normals.len() as u32
            &&& u32_at(s, 20) == v.faces.len() as u32
            &&& s.skip(28) == encode_all(v.points) + (encode_all(v.face_normals) + (encode_all(
                v.faces,
            ) + (magic_tagg() + (encode_taggs(v.taggs) + (u32_bytes(v.resolution) + tail)))))
        }),
{
    let s = v.encode() + tail;
    let closing = u32_bytes(v.resolution) + tail;
    let s3 = magic_tagg() + (encode_taggs(v.taggs) + closing);
    let s2 = encode_all(v.faces) + s3;
    let s1 = encode_all(v.face_normals) + s2;
    let s0 = encode_all(v.points) + s1;
    let r7 = seq![0u8, 0u8, 0u8, 0u8] + s0;
    let r8 = u32_bytes(v.faces.len() as u32) + r7;
    let r9 = u32_bytes(v.face_normals.len() as u32) + r8;
    let r10 = u32_bytes(v.points.len() as u32) + r9;
    let r11 = u32_bytes(v.version_minor) + r10;
    let r12 = u32_bytes(v.version_major) + r11;
    lemma_lod_nested(v, tail);
    lemma_skip_none(s);
    lemma_prefix_split(magic_p3dm(), r12, s, 0);
    lemma_word_prefix(v.version_major, r11, s, 4);
    lemma_word_prefix(v.version_minor, r10, s, 8);
    lemma_word_prefix(v.points.len() as u32, r9, s, 12);
    lemma_word_prefix(v.face_normals.len() as u32, r8, s, 16);
    lemma_word_prefix(v.faces.len() as u32, r7, s, 20);
    lemma_prefix_split(seq![0u8, 0u8, 0u8, 0u8], s0, s, 24);
    let h = s.take(28);
    assert(u32_at(h, 4) == u32_at(s, 4));
    assert(u32_at(h, 8) == u32_at(s, 8));
}

/// Reading a stored tag table that is followed by `rest` gives its entries
/// and leaves `rest`.
pub proof fn lemma_tagg_table_layout(taggs: Seq<Tagg>, rest: Seq<u8>)
    requires
        taggs_well_formed(taggs),
    ensures
        parse_tagg_table(magic_tagg() + (encode_taggs(taggs) + rest)) == Ok::<
            (Seq<Tagg>, Seq<u8>),
            Error,
        >((taggs, rest)),
{
    let s = magic_tagg() + (encode_taggs(taggs) + rest);
    lemma_skip_none(s);
    lemma_prefix_split(magic_tagg(), encode_taggs(taggs) + rest, s, 0);
    lemma_parse_taggs_encode(taggs, rest, Seq::empty());
    assert(Seq::<Tagg>::empty() + taggs =~= taggs);
}

/// What a document holds: its version and its levels of detail in order.
pub ghost struct P3DView {
    pub version: u32,
    pub lods: Seq<LodView>,
}

/// Every level of detail of `lods` can be stored.
pub open spec fn lods_storable(lods: Seq<LodView>) -> bool {
    forall|i: int| 0 <= i < lods.len() ==> (#[trigger] lods[i]).storable()
}

impl P3DView {
    /// All counts and lengths fit the 32-bit fields that store them.
    pub open spec fn storable(self) -> bool {
        &&& self.lods.len() <= u32::MAX
        &&& lods_storable(self.lods)
    }
}

impl Record for P3DView {
    open spec fn well_formed(self) -> bool {
        &&& self.lods.len() <= u32::MAX
        &&& all_well_formed(self.lods)
    }

    open spec fn encode(self) -> Seq<u8> {
        magic_mlod() + u32_bytes(self.version) + u32_bytes(self.lods.len() as u32) + encode_all(
            self.lods,
        )
    }

    open spec fn parse(s: Seq<u8>) -> Result<(Self, Seq<u8>), Error> {
        if s.len() < 4 {
            Err(Error::UnexpectedEof)
        } else if s.take(4) != magic_mlod() {
            Err(Error::BadMagic)
        } else if s.len() < 12 {
            Err(Error::UnexpectedEof)
        } else {
            match parse_n::<LodView>(s.skip(12), u32_at(s, 8) as nat, Seq::empty()) {
                Err(e) => Err(e),
                Ok((lods, rest)) => Ok((P3DView { version: u32_at(s, 4), lods }, rest)),
            }
        }
    }

    proof fn lemma_parse_encode(self, tail: Seq<u8>) {
        let s = self.encode() + tail;
        let m = magic_mlod();
        let a = u32_bytes(self.version);
        let b = u32_bytes(self.lods.len() as u32);
        let body = encode_all(self.lods) + tail;
        lemma_concat_assoc(m + a + b, encode_all(self.lods), tail);
        lemma_concat_assoc(m + a, b, body);
        lemma_concat_assoc(m, a, b + body);
        lemma_skip_none(s);
        lemma_prefix_split(m, a + (b + body), s, 0);
        lemma_word_prefix(self.version, b + body, s, 4);
        lemma_word_prefix(self.lods.len() as u32, body, s, 8);
        lemma_parse_n_encode_all(self.lods, tail, Seq::empty());
        assert(Seq::<LodView>::empty() + self.lods =~= self.lods);
    }

    proof fn lemma_parse_well_formed(s: Seq<u8>) {
        if s.len() >= 12 {
            lemma_parse_n_well_formed::<LodView>(s.skip(12), u32_at(s, 8) as nat, Seq::empty());
        }
    }
}

/// Writing a document that was read from a stream and reading the result
/// gives the same document, field for field, and leaves what followed it.
pub proof fn lemma_reread(bytes: Seq<u8>, tail: Seq<u8>)
    requires
        P3DView::parse(bytes) is Ok,
    ensures
        P3DView::parse(P3DView::parse(bytes)->Ok_0.0.encode() + tail) == Ok::<
            (P3DView, Seq<u8>),
            Error,
        >((P3DView::parse(bytes)->Ok_0.0, tail)),
{
    P3DView::lemma_parse_well_formed(bytes);
    P3DView::parse(bytes)->Ok_0.0.lemma_parse_encode(tail);
}

/// A document that is written and read again has as many levels of detail
/// as before, and each of them as many points, normals and faces.
pub proof fn lemma_counts_preserved(doc: P3DView, tail: Seq<u8>)
    requires
        doc.well_formed(),
    ensures
        P3DView::parse(doc.encode() + tail) matches Ok(p) && p.0.lods.len() == doc.lods.len()
            && forall|i: int|
            0 <= i < doc.lods.len() ==> {
                &&& (#[trigger] p.0.lods[i]).points.len() == doc.lods[i].points.len()
                &&& p.0.lods[i].face_normals.len() == doc.lods[i].face_normals.len()
                &&& p.0.lods[i].faces.len() == doc.lods[i].faces.len()
            },
{
    doc.lemma_parse_encode(tail);
}

/// A face of three vertices that is written and read again has three
/// vertices: the padding slot is not part of it.
pub proof fn lemma_triangle_preserved(face: FaceView, tail: Seq<u8>)
    requires
        face.well_formed(),
        face.vertices.len() == 3,
    ensures
        FaceView::parse(face.encode() + tail) matches Ok(p) && p.0.vertices.len() == 3
            && p.0.vertices == face.vertices,
{
    face.lemma_parse_encode(tail);
}

/// A stream of four or more bytes that does not start with `MLOD` is not a document.
pub proof fn lemma_rejects_bad_magic(s: Seq<u8>)
    requires
        s.len() >= 4,
        s.take(4) != magic_mlod(),
    ensures
        P3DView::parse(s) == Err::<(P3DView, Seq<u8>), Error>(Error::BadMagic),
{
}

/// A face record that declares a vertex count other than 3 or 4 is rejected.
pub proof fn lemma_rejects_vertex_count(s: Seq<u8>)
    requires
        s.len() >= 4,
        u32_at(s, 0) != 3,
        u32_at(s, 0) != 4,
    ensures
        FaceView::parse(s) == Err::<(FaceView, Seq<u8>), Error>(Error::BadVertexCount),
{
}

} // verus!
