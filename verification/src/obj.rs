//! The structural OBJ mesh parser.
//!
//! OBJ input is line oriented.  A `v` or `vn` line with at least three
//! following tokens records a vertex or a normal, kept here as its raw
//! coordinate tokens; an `f` line with at least three entries records a
//! face under the group that is currently open; a `g` line opens the
//! group named by its first token.  Every other line, and every `v`,
//! `vn` or `f` line with too few tokens, only counts as ignored.  Faces
//! are fan-triangulated around their first entry, and the grouped
//! triangles are gathered into a build plan: the single named group
//! when exactly one was opened, otherwise a root that holds every named
//! group followed by the ungrouped triangles.
//!
//! The coordinate tokens stay textual here: the renderer that owns the
//! numeric kernel turns them into coordinates.  Face indices are
//! decimal and are parsed exactly as the standard library parses an
//! unsigned integer: an optional leading plus, one or more digits, and
//! a value that fits; anything else reads as zero for a vertex slot and
//! as absent for a normal slot.

use vstd::prelude::*;

verus! {

/// Split `s` at every occurrence of `sep`, keeping empty pieces: the
/// result always holds one piece more than there are separators.
pub open spec fn split_bytes(s: Seq<u8>, sep: u8) -> Seq<Seq<u8>>
    decreases s.len(),
{
    if s.len() == 0 {
        seq![Seq::<u8>::empty()]
    } else if s[0] == sep {
        seq![Seq::<u8>::empty()] + split_bytes(s.drop_first(), sep)
    } else {
        let rest = split_bytes(s.drop_first(), sep);
        seq![seq![s[0]] + rest[0]] + rest.drop_first()
    }
}

/// A split never comes out empty.
pub proof fn lemma_split_len(s: Seq<u8>, sep: u8)
    ensures
        split_bytes(s, sep).len() >= 1,
    decreases s.len(),
{
    if s.len() > 0 {
        lemma_split_len(s.drop_first(), sep);
    }
}

/// Without its separator a byte run is one single piece.
pub proof fn lemma_split_no_sep(s: Seq<u8>, sep: u8)
    requires
        forall|j: int| 0 <= j < s.len() ==> s[j] != sep,
    ensures
        split_bytes(s, sep) == seq![s],
    decreases s.len(),
{
    if s.len() == 0 {
        assert(split_bytes(s, sep) =~~= seq![s]);
    } else {
        assert(forall|j: int|
            0 <= j < s.drop_first().len() ==> s.drop_first()[j] == s[j + 1] && s[j + 1] != sep);
        lemma_split_no_sep(s.drop_first(), sep);
        let rest = split_bytes(s.drop_first(), sep);
        assert(rest[0] == s.drop_first());
        assert(rest.drop_first() =~= Seq::<Seq<u8>>::empty());
        assert(seq![s[0]] + s.drop_first() =~= s);
        assert(split_bytes(s, sep) =~~= seq![s]);
    }
}

/// Splitting at the first separator peels off the piece before it.
pub proof fn lemma_split_at_sep(s: Seq<u8>, sep: u8, k: int)
    requires
        0 <= k < s.len(),
        s[k] == sep,
        forall|j: int| 0 <= j < k ==> s[j] != sep,
    ensures
        split_bytes(s, sep) == seq![s.take(k)] + split_bytes(s.skip(k + 1), sep),
    decreases k,
{
    if k == 0 {
        assert(s.take(0) =~= Seq::<u8>::empty());
        assert(s.skip(1) =~= s.drop_first());
    } else {
        let d = s.drop_first();
        assert(forall|j: int| 0 <= j < k - 1 ==> d[j] == s[j + 1] && s[j + 1] != sep);
        assert(d[k - 1] == s[k]);
        lemma_split_at_sep(d, sep, k - 1);
        assert(d.take(k - 1) =~= s.take(k).drop_first());
        assert(d.skip(k) =~= s.skip(k + 1));
        let rest = split_bytes(d, sep);
        assert(rest[0] == s.take(k).drop_first());
        assert(seq![s[0]] + rest[0] =~= s.take(k));
        assert(split_bytes(s, sep) =~~= seq![s.take(k)] + split_bytes(s.skip(k + 1), sep));
    }
}

/// A non-empty run of ASCII digits.
pub open spec fn is_digits(s: Seq<u8>) -> bool {
    s.len() > 0 && forall|i: int| 0 <= i < s.len() ==> 48 <= #[trigger] s[i] <= 57
}

/// The value of a run of digits, most significant first.
pub open spec fn digits_val(s: Seq<u8>) -> nat
    decreases s.len(),
{
    if s.len() == 0 {
        0
    } else {
        digits_val(s.drop_last()) * 10 + (s.last() - 48) as nat
    }
}

/// How the standard library reads an unsigned decimal token: an
/// optional leading plus, then digits, and a value that fits.
pub open spec fn parse_usize_spec(s: Seq<u8>) -> Option<usize> {
    let body = if s.len() > 0 && s[0] == 43 {
        s.drop_first()
    } else {
        s
    };
    if is_digits(body) && digits_val(body) <= usize::MAX {
        Some(digits_val(body) as usize)
    } else {
        None
    }
}

/// The views of a sequence of byte vectors.
pub open spec fn views(r: Seq<Vec<u8>>) -> Seq<Seq<u8>> {
    r.map_values(|v: Vec<u8>| v@)
}

/// A parsed face entry: the 1-based vertex slot, zero when its token
/// does not read as a number, and the optional 1-based normal slot.
#[derive(Clone, Copy, Debug, PartialEq, Eq, Structural)]
pub struct FaceVertex {
    pub vertex: usize,
    pub normal: Option<usize>,
}

/// A number or zero, as `unwrap_or(0)` reads a vertex slot.
pub open spec fn or_zero(o: Option<usize>) -> usize {
    match o {
        Some(v) => v,
        None => 0,
    }
}

/// How one face token reads: `i` alone is a bare vertex; with slashes,
/// the piece before the first slash is the vertex and the piece after
/// the second is the normal, when there is one and it reads as a
/// number.
pub open spec fn face_entry_spec(t: Seq<u8>) -> FaceVertex {
    let items = split_bytes(t, 47);
    if items.len() == 1 {
        FaceVertex { vertex: or_zero(parse_usize_spec(t)), normal: None }
    } else {
        FaceVertex {
            vertex: or_zero(parse_usize_spec(items[0])),
            normal: if items.len() >= 3 {
                parse_usize_spec(items[2])
            } else {
                None
            },
        }
    }
}

/// The recorded coordinate tokens of one `v` or `vn` line.
pub struct VertexTok {
    pub x: Seq<u8>,
    pub y: Seq<u8>,
    pub z: Seq<u8>,
}

/// One recorded face: its entries and the group it fell in.
pub struct FaceRec {
    pub vertices: Seq<FaceVertex>,
    pub group: Option<Seq<u8>>,
}

/// Everything a parse pass accumulates.
pub struct ObjState {
    pub ignored: nat,
    pub vertices: Seq<VertexTok>,
    pub normals: Seq<VertexTok>,
    pub faces: Seq<FaceRec>,
    pub group: Option<Seq<u8>>,
}

/// How one line changes the parser state.
pub open spec fn obj_step(st: ObjState, line: Seq<u8>) -> ObjState {
    let cols = split_bytes(line, 32);
    let lead = cols[0];
    if lead == seq![118u8] {  // v
        if cols.len() >= 4 {
            ObjState {
                vertices: st.vertices.push(
                    VertexTok { x: cols[1], y: cols[2], z: cols[3] },
                ),
                ..st
            }
        } else {
            ObjState { ignored: st.ignored + 1, ..st }
        }
    } else if lead == seq![118u8, 110u8] {  // vn
        if cols.len() >= 4 {
            ObjState {
                normals: st.normals.push(VertexTok { x: cols[1], y: cols[2], z: cols[3] }),
                ..st
            }
        } else {
            ObjState { ignored: st.ignored + 1, ..st }
        }
    } else if lead == seq![102u8] {  // f
        if cols.len() >= 4 {
            ObjState {
                faces: st.faces.push(
                    FaceRec {
                        vertices: cols.drop_first().map_values(|t: Seq<u8>| face_entry_spec(t)),
                        group: st.group,
                    },
                ),
                ..st
            }
        } else {
            ObjState { ignored: st.ignored + 1, ..st }
        }
    } else if lead == seq![103u8] {  // g
        ObjState {
            group: Some(
                if cols.len() >= 2 {
                    cols[1]
                } else {
                    Seq::<u8>::empty()
                },
            ),
            ..st
        }
    } else {
        ObjState { ignored: st.ignored + 1, ..st }
    }
}

/// A parse pass: the lines folded over the state, first to last.
pub open spec fn obj_run(st: ObjState, lines: Seq<Seq<u8>>) -> ObjState
    decreases lines.len(),
{
    if lines.len() == 0 {
        st
    } else {
        obj_step(obj_run(st, lines.drop_last()), lines.last())
    }
}

/// A line body: its trailing carriage return, if any, stripped.
pub open spec fn strip_cr(l: Seq<u8>) -> Seq<u8> {
    if l.len() > 0 && l.last() == 13 {
        l.drop_last()
    } else {
        l
    }
}

/// The lines of a text: newline-separated, a trailing carriage return
/// stripped from each, and no phantom line after a final newline.
pub open spec fn lines_of(s: Seq<u8>) -> Seq<Seq<u8>> {
    if s.len() == 0 {
        Seq::<Seq<u8>>::empty()
    } else {
        let parts = split_bytes(s, 10);
        let kept = if s.last() == 10 {
            parts.drop_last()
        } else {
            parts
        };
        kept.map_values(|l: Seq<u8>| strip_cr(l))
    }
}

/// Read an unsigned decimal token exactly as the standard library
/// does: an optional leading plus, then digits, and a value that fits.
pub fn parse_usize(t: &Vec<u8>) -> (r: Option<usize>)
    ensures
        r == parse_usize_spec(t@),
{
    let n = t.len();
    let start: usize = if n > 0 && t[0] == 43 {
        1
    } else {
        0
    };
    let ghost body = if start == 1 {
        t@.drop_first()
    } else {
        t@
    };
    proof {
        assert(body =~= t@.subrange(start as int, n as int));
    }
    if start == n {
        return None;
    }
    let mut acc: usize = 0;
    let mut over = false;
    let mut i: usize = start;
    while i < n
        invariant
            start <= i <= n,
            n == t@.len(),
            body == t@.subrange(start as int, n as int),
            body == (if t@.len() > 0 && t@[0] == 43 {
                t@.drop_first()
            } else {
                t@
            }),
            start < n,
            forall|j: int| start <= j < i ==> 48 <= #[trigger] t@[j] <= 57,
            over ==> digits_val(t@.subrange(start as int, i as int)) > usize::MAX,
            !over ==> acc == digits_val(t@.subrange(start as int, i as int)),
        decreases n - i,
    {
        let b = t[i];
        if b < 48 || b > 57 {
            proof {
                assert(body[i - start] == t@[i as int]);
                if is_digits(body) {
                    assert(48 <= body[i - start] <= 57);
                }
            }
            return None;
        }
        let d = (b - 48) as usize;
        let ghost prefix = t@.subrange(start as int, i as int);
        proof {
            assert(t@.subrange(start as int, i + 1).drop_last() =~= prefix);
            assert(t@.subrange(start as int, i + 1).last() == t@[i as int]);
            assert(digits_val(t@.subrange(start as int, i + 1)) == digits_val(prefix) * 10 + (
            b - 48) as nat);
        }
        if over {
        } else if acc > (usize::MAX - d) / 10 {
            proof {
                let q = (usize::MAX - d) as int / 10;
                assert(usize::MAX - d == 10 * q + (usize::MAX - d) as int % 10);
                assert(acc * 10 + d > usize::MAX);
            }
            over = true;
        } else {
            proof {
                let q = (usize::MAX - d) as int / 10;
                assert(usize::MAX - d == 10 * q + (usize::MAX - d) as int % 10);
                assert(acc * 10 + d <= usize::MAX);
            }
            acc = acc * 10 + d;
        }
        i = i + 1;
    }
    proof {
        assert(body =~= t@.subrange(start as int, n as int));
        assert(is_digits(body));
    }
    if over {
        None
    } else {
        Some(acc)
    }
}

/// Copy `s[a..b]`.
fn subvec(s: &Vec<u8>, a: usize, b: usize) -> (r: Vec<u8>)
    requires
        a <= b <= s@.len(),
    ensures
        r@ == s@.subrange(a as int, b as int),
{
    let mut r: Vec<u8> = Vec::new();
    let mut i: usize = a;
    while i < b
        invariant
            a <= i <= b <= s@.len(),
            r@ == s@.subrange(a as int, i as int),
        decreases b - i,
    {
        r.push(s[i]);
        i = i + 1;
        proof {
            assert(r@ =~= s@.subrange(a as int, i as int));
        }
    }
    r
}

/// Split a byte vector at `sep`, keeping empty pieces.
fn split_vec(s: &Vec<u8>, sep: u8) -> (r: Vec<Vec<u8>>)
    ensures
        views(r@) == split_bytes(s@, sep),
{
    let mut r: Vec<Vec<u8>> = Vec::new();
    let mut start: usize = 0;
    let mut p: usize = 0;
    let n = s.len();
    proof {
        assert(s@.skip(0) =~= s@);
        assert(views(r@) + split_bytes(s@, sep) =~= split_bytes(s@, sep));
    }
    while p < n
        invariant
            start <= p <= n,
            n == s@.len(),
            forall|j: int| start <= j < p ==> s@[j] != sep,
            split_bytes(s@, sep) == views(r@) + split_bytes(s@.skip(start as int), sep),
        decreases n - p,
    {
        if s[p] == sep {
            let piece = subvec(s, start, p);
            proof {
                let t = s@.skip(start as int);
                assert(forall|j: int|
                    0 <= j < p - start ==> t[j] == s@[j + start] && t[j] != sep);
                assert(t[p - start] == s@[p as int]);
                lemma_split_at_sep(t, sep, p - start);
                assert(t.take(p - start) =~= s@.subrange(start as int, p as int));
                assert(t.skip(p - start + 1) =~= s@.skip(p + 1));
                assert(split_bytes(t, sep) == seq![t.take(p - start)] + split_bytes(
                    s@.skip(p + 1),
                    sep,
                ));
            }
            let ghost old_r = r@;
            r.push(piece);
            proof {
                assert(views(r@) =~= views(old_r).push(piece@));
                assert(views(r@) + split_bytes(s@.skip(p + 1), sep) =~= views(old_r) + (seq![
                    piece@,
                ] + split_bytes(s@.skip(p + 1), sep)));
            }
            start = p + 1;
        }
        p = p + 1;
    }
    let piece = subvec(s, start, n);
    proof {
        let t = s@.skip(start as int);
        assert(forall|j: int| 0 <= j < t.len() ==> t[j] == s@[j + start] && t[j] != sep);
        lemma_split_no_sep(t, sep);
        assert(t =~= s@.subrange(start as int, n as int));
    }
    let ghost old_r = r@;
    r.push(piece);
    proof {
        assert(views(r@) =~= views(old_r).push(piece@));
        assert(views(old_r) + seq![piece@] =~= views(r@));
    }
    r
}

/// Copy a byte vector.
fn copy_vec(v: &Vec<u8>) -> (r: Vec<u8>)
    ensures
        r@ == v@,
{
    let r = subvec(v, 0, v.len());
    proof {
        assert(v@.subrange(0, v@.len() as int) =~= v@);
    }
    r
}

/// The coordinate tokens of one vertex or normal record.
#[derive(Debug, Clone)]
pub struct VertexTokens {
    pub x: Vec<u8>,
    pub y: Vec<u8>,
    pub z: Vec<u8>,
}

impl View for VertexTokens {
    type V = VertexTok;

    open spec fn view(&self) -> VertexTok {
        VertexTok { x: self.x@, y: self.y@, z: self.z@ }
    }
}

/// One face as parsed: its entries and the group it fell in.
#[derive(Debug, Clone)]
pub struct Face {
    pub vertices: Vec<FaceVertex>,
    pub group: Option<Vec<u8>>,
}

impl View for Face {
    type V = FaceRec;

    open spec fn view(&self) -> FaceRec {
        FaceRec {
            vertices: self.vertices@,
            group: match self.group {
                Some(ref g) => Some(g@),
                None => None,
            },
        }
    }
}

/// The line-oriented OBJ reader: it classifies each line of its input
/// and accumulates vertices, normals, faces and the open group.
#[derive(Debug)]
pub struct ObjFileParser {
    input: Vec<u8>,
    lines_ignored: usize,
    vertices: Vec<VertexTokens>,
    normals: Vec<VertexTokens>,
    faces: Vec<Face>,
    current_group: Option<Vec<u8>>,
}

impl View for ObjFileParser {
    type V = ObjState;

    closed spec fn view(&self) -> ObjState {
        ObjState {
            ignored: self.lines_ignored as nat,
            vertices: self.vertices@.map_values(|v: VertexTokens| v@),
            normals: self.normals@.map_values(|v: VertexTokens| v@),
            faces: self.faces@.map_values(|f: Face| f@),
            group: match self.current_group {
                Some(ref g) => Some(g@),
                None => None,
            },
        }
    }
}

/// The empty accumulation every fresh parser starts from.
pub open spec fn obj_init() -> ObjState {
    ObjState {
        ignored: 0,
        vertices: Seq::<VertexTok>::empty(),
        normals: Seq::<VertexTok>::empty(),
        faces: Seq::<FaceRec>::empty(),
        group: None,
    }
}

/// A pass over `lines` adds at most one ignored line per line.
pub proof fn lemma_obj_run_ignored(st: ObjState, lines: Seq<Seq<u8>>)
    ensures
        obj_run(st, lines).ignored <= st.ignored + lines.len(),
    decreases lines.len(),
{
    if lines.len() > 0 {
        lemma_obj_run_ignored(st, lines.drop_last());
    }
}

impl ObjFileParser {
    /// The input text this parser reads.
    pub closed spec fn input_bytes(&self) -> Seq<u8> {
        self.input@
    }

    pub fn new_input(input: Vec<u8>) -> (p: Self)
        ensures
            p@ == obj_init(),
            p.input_bytes() == input@,
    {
        let p = ObjFileParser {
            input,
            lines_ignored: 0,
            vertices: Vec::new(),
            normals: Vec::new(),
            faces: Vec::new(),
            current_group: None,
        };
        proof {
            assert(p@.vertices =~= obj_init().vertices);
            assert(p@.normals =~= obj_init().normals);
            assert(p@.faces =~= obj_init().faces);
        }
        p
    }

    pub fn lines_ignored(&self) -> (n: usize)
        ensures
            n == self@.ignored,
    {
        self.lines_ignored
    }

    /// The recorded vertices, as coordinate tokens.
    pub fn vertices(&self) -> (r: &Vec<VertexTokens>)
        ensures
            r@.map_values(|v: VertexTokens| v@) == self@.vertices,
    {
        &self.vertices
    }

    /// The recorded normals, as coordinate tokens.
    pub fn normals(&self) -> (r: &Vec<VertexTokens>)
        ensures
            r@.map_values(|v: VertexTokens| v@) == self@.normals,
    {
        &self.normals
    }

    /// The recorded faces.
    pub fn faces(&self) -> (r: &Vec<Face>)
        ensures
            r@.map_values(|f: Face| f@) == self@.faces,
    {
        &self.faces
    }

    /// Classify one line and fold it into the accumulated state.
    fn process_line(&mut self, line: &Vec<u8>)
        requires
            old(self)@.ignored < usize::MAX,
        ensures
            final(self)@ == obj_step(old(self)@, line@),
            final(self).input_bytes() == old(self).input_bytes(),
    {
        let cols = split_vec(line, 32);
        proof {
            lemma_split_len(line@, 32);
            assert(cols@.len() >= 1);
        }
        let ghost colv = split_bytes(line@, 32);
        let lead_len = cols[0].len();
        let is_v = lead_len == 1 && cols[0][0] == 118;
        let is_vn = lead_len == 2 && cols[0][0] == 118 && cols[0][1] == 110;
        let is_f = lead_len == 1 && cols[0][0] == 102;
        let is_g = lead_len == 1 && cols[0][0] == 103;
        proof {
            assert(cols@[0]@ == colv[0]);
            if is_v {
                assert(colv[0] =~= seq![118u8]);
            }
            if is_vn {
                assert(colv[0] =~= seq![118u8, 110u8]);
            }
            if is_f {
                assert(colv[0] =~= seq![102u8]);
            }
            if is_g {
                assert(colv[0] =~= seq![103u8]);
            }
        }
        if is_v || is_vn {
            if cols.len() >= 4 {
                let vt = VertexTokens {
                    x: copy_vec(&cols[1]),
                    y: copy_vec(&cols[2]),
                    z: copy_vec(&cols[3]),
                };
                proof {
                    assert(vt@ == (VertexTok { x: colv[1], y: colv[2], z: colv[3] }));
                }
                if is_v {
                    let ghost before = self@.vertices;
                    self.vertices.push(vt);
                    proof {
                        assert(self@.vertices =~= before.push(
                            VertexTok { x: colv[1], y: colv[2], z: colv[3] },
                        ));
                        assert(self@ == obj_step(old(self)@, line@));
                    }
                } else {
                    let ghost before = self@.normals;
                    self.normals.push(vt);
                    proof {
                        assert(self@.normals =~= before.push(
                            VertexTok { x: colv[1], y: colv[2], z: colv[3] },
                        ));
                        assert(self@ == obj_step(old(self)@, line@));
                    }
                }
            } else {
                self.lines_ignored = self.lines_ignored + 1;
            }
        } else if is_f {
            if cols.len() >= 4 {
                let mut entries: Vec<FaceVertex> = Vec::new();
                let mut j: usize = 1;
                let ncols = cols.len();
                while j < ncols
                    invariant
                        1 <= j <= ncols,
                        ncols == cols@.len(),
                        forall|m: int| 0 <= m < cols@.len() ==> cols@[m]@ == colv[m],
                        entries@.len() == j - 1,
                        forall|m: int|
                            0 <= m < j - 1 ==> entries@[m] == face_entry_spec(colv[m + 1]),
                    decreases ncols - j,
                {
                    let e = parse_face_entry(&cols[j]);
                    entries.push(e);
                    j = j + 1;
                }
                let grp = self.clone_group();
                let ghost before = self@.faces;
                let face = Face { vertices: entries, group: grp };
                proof {
                    assert(face@.vertices =~= colv.drop_first().map_values(
                        |t: Seq<u8>| face_entry_spec(t),
                    ));
                    assert(face@.group == old(self)@.group);
                }
                self.faces.push(face);
                proof {
                    assert(self@.faces =~= before.push(face@));
                    assert(self@ == obj_step(old(self)@, line@));
                }
            } else {
                self.lines_ignored = self.lines_ignored + 1;
            }
        } else if is_g {
            let name = if cols.len() >= 2 {
                copy_vec(&cols[1])
            } else {
                Vec::new()
            };
            proof {
                if cols@.len() >= 2 {
                    assert(name@ == colv[1]);
                } else {
                    assert(name@ =~= Seq::<u8>::empty());
                }
            }
            self.current_group = Some(name);
            proof {
                assert(self@ == obj_step(old(self)@, line@));
            }
        } else {
            self.lines_ignored = self.lines_ignored + 1;
            proof {
                assert(self@ == obj_step(old(self)@, line@));
            }
        }
    }

    /// A copy of the open group name.
    fn clone_group(&self) -> (r: Option<Vec<u8>>)
        ensures
            (match r {
                Some(g) => self@.group == Some(g@),
                None => self@.group is None,
            }),
    {
        match &self.current_group {
            Some(g) => Some(copy_vec(g)),
            None => None,
        }
    }

    /// Read every line of the input, folding each into the state.
    pub fn parse(&mut self)
        requires
            old(self)@.ignored + old(self).input_bytes().len() + 1 <= usize::MAX,
        ensures
            final(self)@ == obj_run(old(self)@, lines_of(old(self).input_bytes())),
            final(self).input_bytes() == old(self).input_bytes(),
    {
        let parts = split_vec(&self.input, 10);
        let ghost lines = lines_of(self.input@);
        let n_all = parts.len();
        let in_len = self.input.len();
        let nlines: usize = if in_len == 0 {
            0
        } else if self.input[in_len - 1] == 10 {
            proof {
                lemma_split_len(self.input@, 10);
            }
            n_all - 1
        } else {
            n_all
        };
        proof {
            if in_len > 0 {
                let parts_v = split_bytes(self.input@, 10);
                if self.input@.last() == 10 {
                    assert(lines =~= parts_v.drop_last().map_values(|l: Seq<u8>| strip_cr(l)));
                } else {
                    assert(lines =~= parts_v.map_values(|l: Seq<u8>| strip_cr(l)));
                }
            }
            assert(lines.len() == nlines);
            assert(forall|k: int| 0 <= k < nlines ==> lines[k] == strip_cr(parts@[k]@));
            lemma_split_parts_bound(self.input@, 10);
        }
        let mut k: usize = 0;
        proof {
            assert(lines.take(0) =~= Seq::<Seq<u8>>::empty());
        }
        while k < nlines
            invariant
                k <= nlines,
                nlines <= parts@.len(),
                nlines <= old(self).input_bytes().len() + 1,
                lines.len() == nlines,
                forall|m: int| 0 <= m < nlines ==> lines[m] == strip_cr(parts@[m]@),
                self@ == obj_run(old(self)@, lines.take(k as int)),
                self.input_bytes() == old(self).input_bytes(),
                old(self)@.ignored + old(self).input_bytes().len() + 1 <= usize::MAX,
            decreases nlines - k,
        {
            let line = strip_cr_vec(&parts[k]);
            proof {
                lemma_obj_run_ignored(old(self)@, lines.take(k as int));
                assert(self@.ignored < usize::MAX);
            }
            self.process_line(&line);
            proof {
                assert(lines.take(k + 1).drop_last() =~= lines.take(k as int));
                assert(lines.take(k + 1).last() == lines[k as int]);
                assert(self@ == obj_run(old(self)@, lines.take(k + 1)));
            }
            k = k + 1;
        }
        proof {
            assert(lines.take(nlines as int) =~= lines);
        }
    }
}

/// A split yields at most one piece more than the text has bytes.
proof fn lemma_split_parts_bound(s: Seq<u8>, sep: u8)
    ensures
        split_bytes(s, sep).len() <= s.len() + 1,
    decreases s.len(),
{
    if s.len() > 0 {
        lemma_split_parts_bound(s.drop_first(), sep);
    }
}

/// Strip the trailing carriage return, if any.
fn strip_cr_vec(v: &Vec<u8>) -> (r: Vec<u8>)
    ensures
        r@ == strip_cr(v@),
{
    let n = v.len();
    if n > 0 && v[n - 1] == 13 {
        let r = subvec(v, 0, n - 1);
        proof {
            assert(v@.subrange(0, n - 1) =~= v@.drop_last());
        }
        r
    } else {
        copy_vec(v)
    }
}

/// Read one face token.
pub fn parse_face_entry(entry: &Vec<u8>) -> (r: FaceVertex)
    ensures
        r == face_entry_spec(entry@),
{
    let items = split_vec(entry, 47);
    proof {
        lemma_split_len(entry@, 47);
    }
    if items.len() == 1 {
        FaceVertex { vertex: or_zero_exec(parse_usize(entry)), normal: None }
    } else {
        let vertex = or_zero_exec(parse_usize(&items[0]));
        let normal = if items.len() >= 3 {
            parse_usize(&items[2])
        } else {
            None
        };
        FaceVertex { vertex, normal }
    }
}

/// A number or zero.
fn or_zero_exec(o: Option<usize>) -> (r: usize)
    ensures
        r == or_zero(o),
{
    match o {
        Some(v) => v,
        None => 0,
    }
}

/// One planned triangle: three face entries, the fan anchor first.  It
/// is smooth when all three entries carry a normal.
#[derive(Clone, Copy, Debug, PartialEq, Eq, Structural)]
pub struct TrianglePlan {
    pub a: FaceVertex,
    pub b: FaceVertex,
    pub c: FaceVertex,
}

/// Fan triangulation around the first entry: entries `0, i+1, i+2`
/// for each window `i`.
pub open spec fn fan_spec(vs: Seq<FaceVertex>) -> Seq<TrianglePlan> {
    if vs.len() < 3 {
        Seq::<TrianglePlan>::empty()
    } else {
        Seq::new((vs.len() - 2) as nat, |i: int| TrianglePlan { a: vs[0], b: vs[i + 1], c: vs[i + 2] })
    }
}

/// The distinct group names of `faces`, in order of first appearance.
pub open spec fn group_names(faces: Seq<FaceRec>) -> Seq<Seq<u8>>
    decreases faces.len(),
{
    if faces.len() == 0 {
        Seq::<Seq<u8>>::empty()
    } else {
        let prev = group_names(faces.drop_last());
        match faces.last().group {
            None => prev,
            Some(n) => if prev.contains(n) {
                prev
            } else {
                prev.push(n)
            },
        }
    }
}

/// The fan triangles of every face filed under `name`, in face order.
pub open spec fn group_triangles(faces: Seq<FaceRec>, name: Seq<u8>) -> Seq<TrianglePlan>
    decreases faces.len(),
{
    if faces.len() == 0 {
        Seq::<TrianglePlan>::empty()
    } else {
        group_triangles(faces.drop_last(), name) + if faces.last().group == Some(name) {
            fan_spec(faces.last().vertices)
        } else {
            Seq::<TrianglePlan>::empty()
        }
    }
}

/// The fan triangles of every face outside any group, in face order.
pub open spec fn ungrouped_triangles(faces: Seq<FaceRec>) -> Seq<TrianglePlan>
    decreases faces.len(),
{
    if faces.len() == 0 {
        Seq::<TrianglePlan>::empty()
    } else {
        ungrouped_triangles(faces.drop_last()) + if faces.last().group is None {
            fan_spec(faces.last().vertices)
        } else {
            Seq::<TrianglePlan>::empty()
        }
    }
}

/// One named group of planned triangles.
#[derive(Debug, Clone)]
pub struct NamedGroup {
    pub name: Vec<u8>,
    pub triangles: Vec<TrianglePlan>,
}

/// What a finished build hands the renderer: the single named group
/// when exactly one was opened, otherwise the named groups in order of
/// first appearance followed by the ungrouped triangles.
#[derive(Debug, Clone)]
pub enum GroupPlan {
    Single { name: Vec<u8>, triangles: Vec<TrianglePlan> },
    Root { groups: Vec<NamedGroup>, ungrouped: Vec<TrianglePlan> },
}

/// Whether `plan` is the faithful grouping of `faces`.
pub open spec fn plan_matches(plan: GroupPlan, faces: Seq<FaceRec>) -> bool {
    let names = group_names(faces);
    match plan {
        GroupPlan::Single { name, triangles } => {
            &&& names.len() == 1
            &&& name@ == names[0]
            &&& triangles@ == group_triangles(faces, names[0])
        },
        GroupPlan::Root { groups, ungrouped } => {
            &&& names.len() != 1
            &&& groups@.len() == names.len()
            &&& forall|i: int|
                0 <= i < names.len() ==> (#[trigger] groups@[i]).name@ == names[i]
                    && groups@[i].triangles@ == group_triangles(faces, names[i])
            &&& ungrouped@ == ungrouped_triangles(faces)
        },
    }
}

/// Byte-for-byte equality of two vectors.
fn bytes_equal(a: &Vec<u8>, b: &Vec<u8>) -> (r: bool)
    ensures
        r == (a@ == b@),
{
    if a.len() != b.len() {
        return false;
    }
    let n = a.len();
    let mut i: usize = 0;
    while i < n
        invariant
            i <= n,
            n == a@.len() == b@.len(),
            forall|j: int| 0 <= j < i ==> a@[j] == b@[j],
        decreases n - i,
    {
        if a[i] != b[i] {
            return false;
        }
        i = i + 1;
    }
    proof {
        assert(a@ =~= b@);
    }
    true
}

/// Append a copy of every triangle of `src` to `dst`.
fn extend_triangles(dst: &mut Vec<TrianglePlan>, src: &Vec<TrianglePlan>)
    ensures
        final(dst)@ == old(dst)@ + src@,
{
    let n = src.len();
    let mut i: usize = 0;
    proof {
        assert(old(dst)@ + src@.take(0) =~= old(dst)@);
    }
    while i < n
        invariant
            i <= n,
            n == src@.len(),
            dst@ == old(dst)@ + src@.take(i as int),
        decreases n - i,
    {
        dst.push(src[i]);
        i = i + 1;
        proof {
            assert(old(dst)@ + src@.take(i as int) =~= (old(dst)@ + src@.take(i - 1)).push(
                src@[i - 1],
            ));
        }
    }
    proof {
        assert(src@.take(n as int) =~= src@);
    }
}

impl ObjFileParser {
    /// Clamp a 1-based reference into the recorded range: below one
    /// resolves to the first entry, past the end to the last.
    pub open spec fn clamp_index(index: int, len: int) -> int {
        let j = if index <= 0 {
            0
        } else {
            index - 1
        };
        if j >= len {
            len - 1
        } else {
            j
        }
    }

    /// The vertex a 1-based face reference resolves to.
    pub fn get_vertex(&self, index: usize) -> (r: &VertexTokens)
        requires
            self@.vertices.len() > 0,
        ensures
            r@ == self@.vertices[Self::clamp_index(index as int, self@.vertices.len() as int)],
    {
        let len = self.vertices.len();
        let j = if index == 0 {
            0
        } else {
            index - 1
        };
        let j = if j >= len {
            len - 1
        } else {
            j
        };
        &self.vertices[j]
    }

    /// The normal a 1-based face reference resolves to.
    pub fn get_normal(&self, index: usize) -> (r: &VertexTokens)
        requires
            self@.normals.len() > 0,
        ensures
            r@ == self@.normals[Self::clamp_index(index as int, self@.normals.len() as int)],
    {
        let len = self.normals.len();
        let j = if index == 0 {
            0
        } else {
            index - 1
        };
        let j = if j >= len {
            len - 1
        } else {
            j
        };
        &self.normals[j]
    }

    /// Fan-triangulate one face's entries around the first.
    pub fn fan_triangulation(&self, vertices: &Vec<FaceVertex>) -> (r: Vec<TrianglePlan>)
        ensures
            r@ == fan_spec(vertices@),
    {
        let mut r: Vec<TrianglePlan> = Vec::new();
        let n = vertices.len();
        if n < 3 {
            proof {
                assert(r@ =~= fan_spec(vertices@));
            }
            return r;
        }
        let mut index: usize = 1;
        while index < n - 1
            invariant
                1 <= index <= n - 1,
                n == vertices@.len(),
                3 <= n,
                r@.len() == index - 1,
                forall|i: int| 0 <= i < index - 1 ==> r@[i] == fan_spec(vertices@)[i],
            decreases n - index,
        {
            r.push(
                TrianglePlan { a: vertices[0], b: vertices[index], c: vertices[index + 1] },
            );
            index = index + 1;
        }
        proof {
            assert(r@ =~= fan_spec(vertices@));
        }
        r
    }

    /// Parse the input, then gather the faces' fan triangles into the
    /// build plan: the one named group alone when exactly one was
    /// opened, else every named group plus the ungrouped triangles.
    pub fn build(&mut self) -> (plan: GroupPlan)
        requires
            old(self)@.ignored + old(self).input_bytes().len() + 1 <= usize::MAX,
        ensures
            final(self)@ == obj_run(old(self)@, lines_of(old(self).input_bytes())),
            final(self).input_bytes() == old(self).input_bytes(),
            plan_matches(plan, final(self)@.faces),
    {
        self.parse();
        let ghost faces_v = self@.faces;
        let mut groups: Vec<NamedGroup> = Vec::new();
        let mut root: Vec<TrianglePlan> = Vec::new();
        let nfaces = self.faces.len();
        let mut k: usize = 0;
        proof {
            assert(faces_v.take(0) =~= Seq::<FaceRec>::empty());
            assert(root@ =~= ungrouped_triangles(faces_v.take(0)));
            assert(group_names(faces_v.take(0)) =~= Seq::<Seq<u8>>::empty());
        }
        while k < nfaces
            invariant
                k <= nfaces,
                nfaces == self.faces@.len(),
                faces_v == self@.faces,
                faces_v.len() == nfaces,
                groups@.len() == group_names(faces_v.take(k as int)).len(),
                forall|i: int|
                    0 <= i < groups@.len() ==> (#[trigger] groups@[i]).name@ == group_names(
                        faces_v.take(k as int),
                    )[i] && groups@[i].triangles@ == group_triangles(
                        faces_v.take(k as int),
                        group_names(faces_v.take(k as int))[i],
                    ),
                root@ == ungrouped_triangles(faces_v.take(k as int)),
            decreases nfaces - k,
        {
            let ghost done = faces_v.take(k as int);
            let ghost donext = faces_v.take(k + 1);
            proof {
                assert(donext.drop_last() =~= done);
                assert(donext.last() == faces_v[k as int]);
                assert(faces_v[k as int] == self.faces@[k as int]@);
            }
            let tris = self.fan_triangulation(&self.faces[k].vertices);
            let has_group = match &self.faces[k].group {
                Some(_) => true,
                None => false,
            };
            if has_group {
                let name = match &self.faces[k].group {
                    Some(g) => copy_vec(g),
                    None => Vec::new(),
                };
                proof {
                    assert(faces_v[k as int].group == Some(name@));
                }
                let ngroups = groups.len();
                let mut gi: usize = 0;
                let mut found = false;
                while gi < ngroups && !found
                    invariant
                        gi <= ngroups,
                        ngroups == groups@.len(),
                        !found ==> forall|j: int| 0 <= j < gi ==> (#[trigger] groups@[j]).name@
                            != name@,
                        found ==> gi < ngroups && groups@[gi as int].name@ == name@,
                    decreases ngroups - gi + (if found { 0int } else { 1int }),
                {
                    if bytes_equal(&groups[gi].name, &name) {
                        found = true;
                    } else {
                        gi = gi + 1;
                    }
                }
                let ghost names = group_names(done);
                let ghost names2 = group_names(donext);
                if found {
                    proof {
                        lemma_group_names_distinct(done);
                        assert(names[gi as int] == name@);
                        assert(names.contains(name@));
                        assert(names2 == names);
                    }
                    let mut merged: Vec<TrianglePlan> = Vec::new();
                    extend_triangles(&mut merged, &groups[gi].triangles);
                    extend_triangles(&mut merged, &tris);
                    let gname = copy_vec(&groups[gi].name);
                    let ghost gold = groups@;
                    groups.set(gi, NamedGroup { name: gname, triangles: merged });
                    proof {
                        assert forall|i: int| 0 <= i < groups@.len() implies (
                        #[trigger] groups@[i]).name@ == names2[i]
                            && groups@[i].triangles@ == group_triangles(donext, names2[i]) by {
                            if i == gi {
                                assert(groups@[i].name@ == name@);
                                assert(groups@[i].triangles@ =~= group_triangles(done, name@)
                                    + fan_spec(faces_v[k as int].vertices));
                                assert(group_triangles(donext, name@) == group_triangles(
                                    done,
                                    name@,
                                ) + fan_spec(faces_v[k as int].vertices));
                            } else {
                                assert(groups@[i] == gold[i]);
                                assert(names2[i] == names[i]);
                                assert(names[i] != name@);
                                assert(group_triangles(donext, names[i]) =~= group_triangles(
                                    done,
                                    names[i],
                                ));
                            }
                        }
                        assert(root@ =~= ungrouped_triangles(donext));
                    }
                } else {
                    proof {
                        if names.contains(name@) {
                            let w = choose|w: int| 0 <= w < names.len() && names[w] == name@;
                            assert(groups@[w].name@ == names[w]);
                            assert(false);
                        }
                        assert(names2 == names.push(name@));
                    }
                    let ghost gold = groups@;
                    proof {
                        assert(group_triangles(done, name@).len() == 0) by {
                            lemma_absent_group_empty(done, name@);
                        }
                    }
                    groups.push(NamedGroup { name, triangles: tris });
                    proof {
                        assert forall|i: int| 0 <= i < groups@.len() implies (
                        #[trigger] groups@[i]).name@ == names2[i]
                            && groups@[i].triangles@ == group_triangles(donext, names2[i]) by {
                            if i < gold.len() {
                                assert(groups@[i] == gold[i]);
                                assert(names2[i] == names[i]);
                                assert(names[i] != groups@[groups@.len() - 1].name@);
                                assert(group_triangles(donext, names[i]) =~= group_triangles(
                                    done,
                                    names[i],
                                ));
                            } else {
                                assert(groups@[i].triangles@ =~= Seq::<TrianglePlan>::empty()
                                    + fan_spec(faces_v[k as int].vertices));
                                assert(group_triangles(donext, names2[i]) == group_triangles(
                                    done,
                                    names2[i],
                                ) + fan_spec(faces_v[k as int].vertices));
                            }
                        }
                        assert(root@ =~= ungrouped_triangles(donext));
                    }
                }
            } else {
                proof {
                    assert(faces_v[k as int].group is None);
                    assert(group_names(donext) == group_names(done));
                    assert forall|i: int| 0 <= i < groups@.len() implies (
                    #[trigger] groups@[i]).triangles@ == group_triangles(
                        donext,
                        group_names(donext)[i],
                    ) by {
                        assert(group_triangles(donext, group_names(done)[i]) =~= group_triangles(
                            done,
                            group_names(done)[i],
                        ));
                    }
                }
                extend_triangles(&mut root, &tris);
                proof {
                    assert(root@ =~= ungrouped_triangles(donext));
                }
            }
            k = k + 1;
        }
        proof {
            assert(faces_v.take(nfaces as int) =~= faces_v);
        }
        if groups.len() == 1 {
            let g = groups.remove(0);
            GroupPlan::Single { name: g.name, triangles: g.triangles }
        } else {
            GroupPlan::Root { groups, ungrouped: root }
        }
    }
}

/// First-appearance group names never repeat.
proof fn lemma_group_names_distinct(faces: Seq<FaceRec>)
    ensures
        forall|i: int, j: int|
            0 <= i < j < group_names(faces).len() ==> group_names(faces)[i] != group_names(
                faces,
            )[j],
    decreases faces.len(),
{
    if faces.len() > 0 {
        lemma_group_names_distinct(faces.drop_last());
        let prev = group_names(faces.drop_last());
        let names = group_names(faces);
        match faces.last().group {
            None => {},
            Some(n) => {
                if !prev.contains(n) {
                    assert forall|i: int, j: int| 0 <= i < j < names.len() implies names[i]
                        != names[j] by {
                        if j == names.len() - 1 {
                            assert(names[j] == n);
                            assert(names[i] == prev[i]);
                            if prev[i] == n {
                                assert(prev.contains(n));
                            }
                        }
                    }
                }
            },
        }
    }
}

/// A name no face was filed under has no triangles.
proof fn lemma_absent_group_empty(faces: Seq<FaceRec>, name: Seq<u8>)
    requires
        !group_names(faces).contains(name),
    ensures
        group_triangles(faces, name).len() == 0,
    decreases faces.len(),
{
    if faces.len() > 0 {
        let prev = group_names(faces.drop_last());
        assert(!prev.contains(name)) by {
            if prev.contains(name) {
                let w = choose|w: int| 0 <= w < prev.len() && prev[w] == name;
                match faces.last().group {
                    None => {
                        assert(group_names(faces)[w] == name);
                    },
                    Some(n) => {
                        if prev.contains(n) {
                            assert(group_names(faces)[w] == name);
                        } else {
                            assert(group_names(faces)[w] == name);
                        }
                    },
                }
            }
        }
        lemma_absent_group_empty(faces.drop_last(), name);
        assert(faces.last().group != Some(name)) by {
            if faces.last().group == Some(name) {
                match faces.last().group {
                    Some(n) => {
                        if prev.contains(n) {
                            assert(prev.contains(name));
                        } else {
                            assert(group_names(faces).last() == name);
                            assert(group_names(faces).contains(name));
                        }
                    },
                    None => {},
                }
            }
        }
    }
}

} // verus!
