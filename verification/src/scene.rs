//! Meshes: faces that index into vertex data, the fan that turns a polygon
//! into triangles, and the reader of the text form of a mesh.

use vstd::prelude::*;
use crate::render::Texture;
use crate::text::{Separator, chars_of, fields, parse_i32, parsed_i32, slice, split_fields, split_tokens, tokens, views};

verus! {

/// A triangle of a mesh. `v0`, `v1`, `v2` index the vertices of its three
/// corners, `vn0`.. their normals and `uv0`.. their texture coordinates.
/// An index of -1 says that the corner has no such attribute.
#[derive(Clone, Copy, Debug, PartialEq, Eq, Structural)]
pub struct Face {
    pub v0: i32,
    pub v1: i32,
    pub v2: i32,
    pub vn0: i32,
    pub vn1: i32,
    pub vn2: i32,
    pub uv0: i32,
    pub uv1: i32,
    pub uv2: i32,
}

/// The place in an array of `count` items that the index `i` names, if it
/// names one. A negative index, -1 for an absent attribute among them, and
/// one past the end name none.
pub fn resolve_index(i: i32, count: usize) -> (r: Option<usize>)
    ensures
        r is Some <==> 0 <= i < count,
        r matches Some(k) ==> k == i,
{
    if i >= 0 && (i as usize) < count {
        Some(i as usize)
    } else {
        None
    }
}

/// The triangles of the fan of a polygon of `count` vertices: the first
/// vertex with each pair of neighbours among the others, in order. A polygon
/// of fewer than three vertices has none.
pub fn fan_triangles(count: usize) -> (fan: Vec<(usize, usize, usize)>)
    ensures
        fan.len() == (if count < 3 {
            0
        } else {
            count - 2
        }),
        forall|k: int| 0 <= k < fan.len() ==> #[trigger] fan[k] == (0usize, (k + 1) as usize, (k + 2) as usize),
{
    let mut fan: Vec<(usize, usize, usize)> = Vec::new();
    if count < 3 {
        return fan;
    }
    let mut i: usize = 1;
    while i < count - 1
        invariant
            count >= 3,
            1 <= i <= count - 1,
            fan.len() == i - 1,
            forall|k: int|
                0 <= k < fan.len() ==> #[trigger] fan[k] == (0usize, (k + 1) as usize, (k + 2) as usize),
        decreases count - i,
    {
        fan.push((0, i, i + 1));
        i += 1;
    }
    fan
}

/// Three numbers, each as the text of a mesh writes it.
#[derive(Debug)]
pub struct Coords {
    pub x: Vec<char>,
    pub y: Vec<char>,
    pub z: Vec<char>,
}

/// The characters of a `Coords`.
pub struct CoordsText {
    pub x: Seq<char>,
    pub y: Seq<char>,
    pub z: Seq<char>,
}

impl View for Coords {
    type V = CoordsText;

    open spec fn view(&self) -> CoordsText {
        CoordsText { x: self.x@, y: self.y@, z: self.z@ }
    }
}

/// Two texture coordinates, each as the text of a mesh writes it.
#[derive(Debug)]
pub struct TexCoords {
    pub u: Vec<char>,
    pub v: Vec<char>,
}

/// The characters of a `TexCoords`.
pub struct TexCoordsText {
    pub u: Seq<char>,
    pub v: Seq<char>,
}

impl View for TexCoords {
    type V = TexCoordsText;

    open spec fn view(&self) -> TexCoordsText {
        TexCoordsText { u: self.u@, v: self.v@ }
    }
}

/// What a mesh holds: positions, normals, texture coordinates, and the
/// faces that index into them.
pub struct Mesh {
    pub vertices: Seq<CoordsText>,
    pub faces: Seq<Face>,
    pub vertex_normals: Seq<CoordsText>,
    pub uvs: Seq<TexCoordsText>,
}

impl Mesh {
    /// The mesh that holds nothing.
    pub open spec fn empty() -> Mesh {
        Mesh {
            vertices: Seq::empty(),
            faces: Seq::empty(),
            vertex_normals: Seq::empty(),
            uvs: Seq::empty(),
        }
    }
}

/// A mesh and the texture that it is drawn with.
#[derive(Debug)]
pub struct Object {
    pub vertices: Vec<Coords>,
    pub faces: Vec<Face>,
    pub vertex_normals: Vec<Coords>,
    pub uvs: Vec<TexCoords>,
    pub texture: Texture,
}

impl Object {
    /// The mesh of the object.
    pub open spec fn mesh(&self) -> Mesh {
        Mesh {
            vertices: self.vertices@.map_values(|c: Coords| c@),
            faces: self.faces@,
            vertex_normals: self.vertex_normals@.map_values(|c: Coords| c@),
            uvs: self.uvs@.map_values(|c: TexCoords| c@),
        }
    }

    /// An object with an empty mesh and the empty texture.
    pub fn new() -> (obj: Object)
        ensures
            obj.mesh() == Mesh::empty(),
            obj.texture.width == 0,
            obj.texture.height == 0,
            obj.texture.data@ == Seq::<u8>::empty(),
    {
        let obj = Object {
            vertices: Vec::new(),
            faces: Vec::new(),
            vertex_normals: Vec::new(),
            uvs: Vec::new(),
            texture: Texture::new(),
        };
        assert(obj.mesh().vertices =~= Seq::empty());
        assert(obj.mesh().vertex_normals =~= Seq::empty());
        assert(obj.mesh().uvs =~= Seq::empty());
        obj
    }
}

/// The kinds of line that the text of a mesh holds.
#[derive(Clone, Copy, Debug, PartialEq, Eq, Structural)]
pub enum Entry {
    /// `v`: a position.
    Vertex,
    /// `vn`: a normal.
    Normal,
    /// `vt`: texture coordinates.
    TexCoord,
    /// `f`: a face of three or four corners.
    Face,
    /// Anything else; it is passed over.
    Other,
}

/// The kind of the line that starts with `word`.
pub open spec fn entry_kind(word: Seq<char>) -> Entry {
    if word == seq!['v'] {
        Entry::Vertex
    } else if word == seq!['v', 'n'] {
        Entry::Normal
    } else if word == seq!['v', 't'] {
        Entry::TexCoord
    } else if word == seq!['f'] {
        Entry::Face
    } else {
        Entry::Other
    }
}

/// The index that the field `field` of a face corner writes; 0 where it
/// writes none.
pub open spec fn index_or_zero(field: Seq<char>) -> i32 {
    match parsed_i32(field) {
        Some(v) => v,
        None => 0,
    }
}

/// The three indices of a face corner `vertex/uv/normal`, in that order,
/// as the text counts them, from 1. A field that is missing, empty or no
/// number gives 0.
pub open spec fn corner_indexes(corner: Seq<char>) -> (i32, i32, i32) {
    let f = fields(corner, Separator::Slash);
    (
        index_or_zero(f[0]),
        if f.len() > 1 {
            index_or_zero(f[1])
        } else {
            0
        },
        if f.len() > 2 {
            index_or_zero(f[2])
        } else {
            0
        },
    )
}

/// The index `i` of the text, which counts from 1, as an index that counts
/// from 0. The least 32-bit integer wraps around.
pub open spec fn zero_based(i: i32) -> i32 {
    if i == i32::MIN {
        i32::MAX
    } else {
        (i - 1) as i32
    }
}

/// The face of the corners `a`, `b`, `c`, each given as `corner_indexes`
/// gives it. The face lists the corners in the reverse of their order in the
/// text: `c`, `b`, `a`.
pub open spec fn face_of(a: (i32, i32, i32), b: (i32, i32, i32), c: (i32, i32, i32)) -> Face {
    Face {
        v0: zero_based(c.0),
        v1: zero_based(b.0),
        v2: zero_based(a.0),
        vn0: zero_based(c.2),
        vn1: zero_based(b.2),
        vn2: zero_based(a.2),
        uv0: zero_based(c.1),
        uv1: zero_based(b.1),
        uv2: zero_based(a.1),
    }
}

/// The mesh `m` after one line of text. A `v` or `vn` line with three or
/// more numbers adds a position or a normal of the first three; a `vt` line
/// with two or more adds texture coordinates of the first two. An `f` line
/// with three corners `a b c` adds the face `face_of(a, b, c)`; one with four
/// corners `a b c d` adds the two faces `face_of(a, b, d)` and
/// `face_of(b, c, d)`, which share the edge from `b` to `d`. Every other
/// line leaves the mesh as it is.
pub open spec fn read_line(m: Mesh, line: Seq<char>) -> Mesh {
    let parts = tokens(line, Separator::Whitespace);
    if parts.len() == 0 {
        m
    } else {
        let data = parts.skip(1);
        match entry_kind(parts[0]) {
            Entry::Vertex => if data.len() >= 3 {
                Mesh {
                    vertices: m.vertices.push(CoordsText { x: data[0], y: data[1], z: data[2] }),
                    ..m
                }
            } else {
                m
            },
            Entry::Normal => if data.len() >= 3 {
                Mesh {
                    vertex_normals: m.vertex_normals.push(
                        CoordsText { x: data[0], y: data[1], z: data[2] },
                    ),
                    ..m
                }
            } else {
                m
            },
            Entry::TexCoord => if data.len() >= 2 {
                Mesh { uvs: m.uvs.push(TexCoordsText { u: data[0], v: data[1] }), ..m }
            } else {
                m
            },
            Entry::Face => if data.len() == 3 {
                Mesh {
                    faces: m.faces.push(
                        face_of(
                            corner_indexes(data[0]),
                            corner_indexes(data[1]),
                            corner_indexes(data[2]),
                        ),
                    ),
                    ..m
                }
            } else if data.len() == 4 {
                Mesh {
                    faces: m.faces.push(
                        face_of(
                            corner_indexes(data[0]),
                            corner_indexes(data[1]),
                            corner_indexes(data[3]),
                        ),
                    ).push(
                        face_of(
                            corner_indexes(data[1]),
                            corner_indexes(data[2]),
                            corner_indexes(data[3]),
                        ),
                    ),
                    ..m
                }
            } else {
                m
            },
            Entry::Other => m,
        }
    }
}

/// The mesh that the lines `lines` describe, read first to last.
pub open spec fn read_lines(lines: Seq<Seq<char>>) -> Mesh
    decreases lines.len(),
{
    if lines.len() == 0 {
        Mesh::empty()
    } else {
        read_line(read_lines(lines.drop_last()), lines.last())
    }
}

/// The mesh that the text `text` describes.
pub open spec fn parse_obj(text: Seq<char>) -> Mesh {
    read_lines(tokens(text, Separator::Newline))
}

/// Decides `entry_kind`.
pub fn classify(word: &Vec<char>) -> (kind: Entry)
    ensures
        kind == entry_kind(word@),
{
    let n = word.len();
    if n == 1 && word[0] == 'v' {
        assert(word@ =~= seq!['v']);
        Entry::Vertex
    } else if n == 2 && word[0] == 'v' && word[1] == 'n' {
        assert(word@ =~= seq!['v', 'n']);
        assert(seq!['v', 'n'].len() == 2 && seq!['v'].len() == 1);
        Entry::Normal
    } else if n == 2 && word[0] == 'v' && word[1] == 't' {
        assert(word@ =~= seq!['v', 't']);
        assert(seq!['v', 'n'][1] == 'n' && seq!['v'].len() == 1);
        Entry::TexCoord
    } else if n == 1 && word[0] == 'f' {
        assert(word@ =~= seq!['f']);
        assert(seq!['v', 'n'].len() == 2 && seq!['v', 't'].len() == 2 && seq!['v'][0] == 'v');
        Entry::Face
    } else {
        assert(seq!['v', 'n'].len() == 2 && seq!['v', 't'].len() == 2 && seq!['v'].len() == 1
            && seq!['f'].len() == 1);
        assert(seq!['v'][0] == 'v' && seq!['f'][0] == 'f' && seq!['v', 'n'][0] == 'v'
            && seq!['v', 'n'][1] == 'n' && seq!['v', 't'][0] == 'v' && seq!['v', 't'][1] == 't');
        Entry::Other
    }
}

/// Reads one field of a face corner.
fn read_index(field: &Vec<char>) -> (i: i32)
    ensures
        i == index_or_zero(field@),
{
    match parse_i32(field) {
        Some(v) => v,
        None => 0,
    }
}

/// Reads a face corner.
fn read_corner(corner: &Vec<char>) -> (r: (i32, i32, i32))
    ensures
        r == corner_indexes(corner@),
{
    let parts = split_fields(corner, Separator::Slash);
    let ghost f = fields(corner@, Separator::Slash);
    assert(f == views(parts@));
    assert(parts[0]@ == f[0]);
    let vertex = read_index(&parts[0]);
    let mut uv: i32 = 0;
    let mut normal: i32 = 0;
    if parts.len() > 1 {
        assert(parts[1]@ == f[1]);
        uv = read_index(&parts[1]);
    }
    if parts.len() > 2 {
        assert(parts[2]@ == f[2]);
        normal = read_index(&parts[2]);
    }
    (vertex, uv, normal)
}

/// Decides `zero_based`.
fn one_less(i: i32) -> (r: i32)
    ensures
        r == zero_based(i),
{
    if i == i32::MIN {
        i32::MAX
    } else {
        i - 1
    }
}

/// Builds `face_of`.
fn make_face(a: (i32, i32, i32), b: (i32, i32, i32), c: (i32, i32, i32)) -> (f: Face)
    ensures
        f == face_of(a, b, c),
{
    Face {
        v0: one_less(c.0),
        v1: one_less(b.0),
        v2: one_less(a.0),
        vn0: one_less(c.2),
        vn1: one_less(b.2),
        vn2: one_less(a.2),
        uv0: one_less(c.1),
        uv1: one_less(b.1),
        uv2: one_less(a.1),
    }
}

/// Reads the text form of a mesh.
pub struct ObjLoader {}

impl ObjLoader {
    /// The texture coordinates that the numbers `parts` of a `vt` line
    /// give: the first two of them; none where there are fewer.
    pub fn parse_point(parts: &Vec<Vec<char>>) -> (r: Option<TexCoords>)
        ensures
            r is Some <==> parts.len() >= 2,
            r matches Some(p) ==> p@ == (TexCoordsText { u: parts[0]@, v: parts[1]@ }),
    {
        if parts.len() < 2 {
            return None;
        }
        let u = slice(&parts[0], 0, parts[0].len());
        let v = slice(&parts[1], 0, parts[1].len());
        assert(u@ =~= parts[0]@ && v@ =~= parts[1]@);
        Some(TexCoords { u, v })
    }

    /// The position or normal that the numbers `parts` of a `v` or `vn`
    /// line give: the first three of them; none where there are fewer.
    pub fn parse_vertex(parts: &Vec<Vec<char>>) -> (r: Option<Coords>)
        ensures
            r is Some <==> parts.len() >= 3,
            r matches Some(p) ==> p@ == (CoordsText { x: parts[0]@, y: parts[1]@, z: parts[2]@ }),
    {
        if parts.len() < 3 {
            return None;
        }
        let x = slice(&parts[0], 0, parts[0].len());
        let y = slice(&parts[1], 0, parts[1].len());
        let z = slice(&parts[2], 0, parts[2].len());
        assert(x@ =~= parts[0]@ && y@ =~= parts[1]@ && z@ =~= parts[2]@);
        Some(Coords { x, y, z })
    }

    /// The three indices `vertex/uv/normal` of a face corner, as the text
    /// counts them.
    pub fn parse_face_indexes(index_string: &str) -> (r: (i32, i32, i32))
        ensures
            r == corner_indexes(index_string@),
    {
        let corner = chars_of(index_string);
        read_corner(&corner)
    }

    /// Reads a mesh from its text. The object has the mesh that the text
    /// describes and the empty texture.
    pub fn load_obj(file_as_string: String) -> (obj: Object)
        ensures
            obj.mesh() == parse_obj(file_as_string@),
            obj.texture.width == 0,
            obj.texture.height == 0,
            obj.texture.data@ == Seq::<u8>::empty(),
    {
        let mut obj = Object::new();
        let text = chars_of(file_as_string.as_str());
        let lines = split_tokens(&text, Separator::Newline);
        let mut i: usize = 0;
        assert(views(lines@).take(0) =~= Seq::<Seq<char>>::empty());
        while i < lines.len()
            invariant
                i <= lines.len(),
                obj.mesh() == read_lines(views(lines@).take(i as int)),
                obj.texture.width == 0,
                obj.texture.height == 0,
                obj.texture.data@ == Seq::<u8>::empty(),
            decreases lines.len() - i,
        {
            let ghost before = obj.mesh();
            let ghost line = lines[i as int]@;
            proof {
                assert(views(lines@).take(i as int + 1).drop_last() =~= views(lines@).take(i as int));
                assert(views(lines@).take(i as int + 1).last() == line);
            }
            let mut parts = split_tokens(&lines[i], Separator::Whitespace);
            let ghost all = views(parts@);
            if parts.len() > 0 {
                let word = parts.remove(0);
                assert(word@ == all[0]);
                assert(views(parts@) =~= all.skip(1));
                let ghost data = all.skip(1);
                match classify(&word) {
                    Entry::Vertex => {
                        match ObjLoader::parse_vertex(&parts) {
                            Some(vertex) => {
                                let ghost old_vertices = obj.vertices@;
                                obj.vertices.push(vertex);
                                assert(obj.vertices@.map_values(|c: Coords| c@)
                                    =~= old_vertices.map_values(|c: Coords| c@).push(vertex@));
                                assert(parts[0]@ == data[0] && parts[1]@ == data[1] && parts[2]@
                                    == data[2]);
                            },
                            None => {},
                        }
                    },
                    Entry::Normal => {
                        match ObjLoader::parse_vertex(&parts) {
                            Some(normal) => {
                                let ghost old_normals = obj.vertex_normals@;
                                obj.vertex_normals.push(normal);
                                assert(obj.vertex_normals@.map_values(|c: Coords| c@)
                                    =~= old_normals.map_values(|c: Coords| c@).push(normal@));
                                assert(parts[0]@ == data[0] && parts[1]@ == data[1] && parts[2]@
                                    == data[2]);
                            },
                            None => {},
                        }
                    },
                    Entry::TexCoord => {
                        match ObjLoader::parse_point(&parts) {
                            Some(uv) => {
                                let ghost old_uvs = obj.uvs@;
                                obj.uvs.push(uv);
                                assert(obj.uvs@.map_values(|c: TexCoords| c@) =~= old_uvs.map_values(
                                    |c: TexCoords| c@,
                                ).push(uv@));
                                assert(parts[0]@ == data[0] && parts[1]@ == data[1]);
                            },
                            None => {},
                        }
                    },
                    Entry::Face => {
                        if parts.len() == 3 || parts.len() == 4 {
                            assert(parts[0]@ == data[0] && parts[1]@ == data[1] && parts[2]@
                                == data[2]);
                            let a = read_corner(&parts[0]);
                            let b = read_corner(&parts[1]);
                            let c = read_corner(&parts[2]);
                            if parts.len() == 3 {
                                obj.faces.push(make_face(a, b, c));
                            } else {
                                assert(parts[3]@ == data[3]);
                                let d = read_corner(&parts[3]);
                                obj.faces.push(make_face(a, b, d));
                                obj.faces.push(make_face(b, c, d));
                            }
                        }
                    },
                    Entry::Other => {},
                }
            }
            assert(obj.mesh() == read_line(before, line));
            i += 1;
        }
        assert(views(lines@).take(i as int) =~= views(lines@));
        obj
    }
}

} // verus!
