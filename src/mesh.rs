//! The line-oriented mesh format.
//!
//! Records are lines of fields separated by single spaces: `v x y z` (a vertex
//! position), `vn x y z` (a vertex normal) and `f a b c` (a triangular face).
//! A face corner is `p` or `p/t/n`: 1-based indices into the positions and,
//! with the third `/`-separated field, into the normals; the middle field is
//! not read. Other lines are ignored. Coordinates are read by the caller; this
//! module reads the structure and the indices.
use vstd::prelude::*;

verus! {

/// The fields of `s` between occurrences of `sep`; `n` separators make `n + 1` fields.
pub open spec fn fields_of(s: Seq<u8>, sep: u8) -> Seq<Seq<u8>>
    decreases s.len(),
{
    if s.len() == 0 {
        seq![Seq::<u8>::empty()]
    } else {
        let r = fields_of(s.drop_last(), sep);
        if s.last() == sep {
            r.push(Seq::<u8>::empty())
        } else {
            r.update(r.len() - 1, r.last().push(s.last()))
        }
    }
}

pub proof fn lemma_fields_nonempty(s: Seq<u8>, sep: u8)
    ensures
        fields_of(s, sep).len() >= 1,
    decreases s.len(),
{
    if s.len() > 0 {
        lemma_fields_nonempty(s.drop_last(), sep);
    }
}

pub open spec fn views(v: Seq<Vec<u8>>) -> Seq<Seq<u8>> {
    v.map_values(|f: Vec<u8>| f@)
}

/// Splits `line` at every `sep`.
pub fn split_fields(line: &Vec<u8>, sep: u8) -> (r: Vec<Vec<u8>>)
    ensures
        views(r@) == fields_of(line@, sep),
{
    let mut done: Vec<Vec<u8>> = Vec::new();
    let mut cur: Vec<u8> = Vec::new();
    let mut k: usize = 0;
    while k < line.len()
        invariant
            k <= line.len(),
            views(done@).push(cur@) == fields_of(line@.take(k as int), sep),
        decreases line.len() - k,
    {
        let c = line[k];
        proof {
            assert(line@.take(k + 1).drop_last() =~= line@.take(k as int));
            lemma_fields_nonempty(line@.take(k as int), sep);
        }
        if c == sep {
            let ghost before = views(done@);
            let finished = cur;
            done.push(finished);
            cur = Vec::new();
            assert(views(done@) =~= before.push(finished@));
            assert(views(done@).push(cur@) =~= fields_of(line@.take(k + 1), sep));
        } else {
            let ghost before = views(done@).push(cur@);
            cur.push(c);
            assert(views(done@).push(cur@) =~= before.update(before.len() - 1, before.last().push(c)));
        }
        k = k + 1;
    }
    assert(line@.take(k as int) =~= line@);
    let ghost before = views(done@);
    done.push(cur);
    assert(views(done@) =~= before.push(cur@));
    done
}

pub open spec fn is_digit(c: u8) -> bool {
    48 <= c <= 57
}

/// The number that the decimal digits `s` spell.
pub open spec fn decimal(s: Seq<u8>) -> int
    decreases s.len(),
{
    if s.len() == 0 {
        0
    } else {
        decimal(s.drop_last()) * 10 + (s.last() - 48)
    }
}

/// `s` spells an index: one or more decimal digits, with an optional leading `+`.
pub open spec fn index_digits(s: Seq<u8>) -> Seq<u8> {
    if s.len() > 0 && s[0] == 43 {
        s.subrange(1, s.len() as int)
    } else {
        s
    }
}

pub open spec fn spells_index(s: Seq<u8>) -> bool {
    let d = index_digits(s);
    &&& d.len() > 0
    &&& forall|i: int| 0 <= i < d.len() ==> is_digit(#[trigger] d[i])
    &&& decimal(d) <= usize::MAX
}

proof fn lemma_decimal_nonnegative(s: Seq<u8>)
    requires
        forall|i: int| 0 <= i < s.len() ==> is_digit(#[trigger] s[i]),
    ensures
        decimal(s) >= 0,
    decreases s.len(),
{
    if s.len() > 0 {
        lemma_decimal_nonnegative(s.drop_last());
    }
}

proof fn lemma_decimal_monotone(s: Seq<u8>, k: int)
    requires
        0 <= k <= s.len(),
        forall|i: int| 0 <= i < s.len() ==> is_digit(#[trigger] s[i]),
    ensures
        decimal(s.take(k)) <= decimal(s),
    decreases s.len() - k,
{
    if k < s.len() {
        lemma_decimal_monotone(s, k + 1);
        assert(s.take(k + 1).drop_last() =~= s.take(k));
        assert(s.take(k + 1).last() == s[k]);
        assert forall|i: int| 0 <= i < s.take(k).len() implies is_digit(#[trigger] s.take(k)[i]) by {
            assert(s.take(k)[i] == s[i]);
        }
        lemma_decimal_nonnegative(s.take(k));
    } else {
        assert(s.take(k) =~= s);
    }
}

/// Reads an index written in decimal, as `str::parse::<usize>` does.
pub fn parse_index(tok: &Vec<u8>) -> (r: Option<usize>)
    ensures
        r.is_some() <==> spells_index(tok@),
        r.is_some() ==> r.unwrap() == decimal(index_digits(tok@)),
{
    let ghost d = index_digits(tok@);
    let start: usize = if tok.len() > 0 && tok[0] == 43 { 1 } else { 0 };
    assert(d =~= tok@.subrange(start as int, tok.len() as int));
    if start >= tok.len() {
        return None;
    }
    let mut value: usize = 0;
    let mut k: usize = start;
    while k < tok.len()
        invariant
            start <= k <= tok.len(),
            start == 0 || start == 1,
            d == index_digits(tok@),
            d == tok@.subrange(start as int, tok.len() as int),
            forall|i: int| start <= i < k ==> is_digit(#[trigger] tok@[i]),
            value == decimal(tok@.subrange(start as int, k as int)),
        decreases tok.len() - k,
    {
        let c = tok[k];
        let ghost prefix = tok@.subrange(start as int, k as int);
        if c < 48 || c > 57 {
            assert(d[k - start] == c);
            assert(!is_digit(d[k - start]));
            return None;
        }
        proof {
            assert(tok@.subrange(start as int, k + 1).drop_last() =~= prefix);
        }
        if value > (usize::MAX - (c - 48) as usize) / 10 {
            proof {
                let dc = (c - 48) as int;
                assert(value * 10 + dc > usize::MAX) by (nonlinear_arith)
                    requires
                        value > (usize::MAX - dc) / 10,
                        0 <= dc <= 9,
                ;
                assert(decimal(tok@.subrange(start as int, k + 1)) == value * 10 + dc);
                if forall|i: int| 0 <= i < d.len() ==> is_digit(#[trigger] d[i]) {
                    assert(d.take(k + 1 - start) =~= tok@.subrange(start as int, k + 1));
                    lemma_decimal_monotone(d, k + 1 - start);
                }
            }
            return None;
        }
        value = value * 10 + (c - 48) as usize;
        k = k + 1;
    }
    assert(tok@.subrange(start as int, k as int) =~= d);
    Some(value)
}

/// A face corner as written: a position index and, optionally, a normal
/// index, both 1-based.
#[derive(Clone, Copy, Debug, PartialEq, Eq, Structural)]
pub struct FaceCorner {
    pub point: usize,
    pub normal: Option<usize>,
}

pub open spec fn index_value(s: Seq<u8>) -> usize {
    decimal(index_digits(s)) as usize
}

/// The corner that the field `tok` spells: `p`, or `p/t/n` and more, whose
/// middle field is not read.
pub open spec fn corner_of(tok: Seq<u8>) -> Option<FaceCorner> {
    let f = fields_of(tok, 47);
    if f.len() == 1 {
        if spells_index(f[0]) {
            Some(FaceCorner { point: index_value(f[0]), normal: None })
        } else {
            None
        }
    } else if f.len() >= 3 && spells_index(f[0]) && spells_index(f[2]) {
        Some(FaceCorner { point: index_value(f[0]), normal: Some(index_value(f[2])) })
    } else {
        None
    }
}

/// Reads one face corner.
pub fn parse_corner(tok: &Vec<u8>) -> (r: Option<FaceCorner>)
    ensures
        r == corner_of(tok@),
{
    let f = split_fields(tok, 47);
    proof {
        lemma_fields_nonempty(tok@, 47);
        assert(f@.len() == fields_of(tok@, 47).len());
    }
    if f.len() == 1 {
        assert(f[0]@ == fields_of(tok@, 47)[0]);
        match parse_index(&f[0]) {
            Some(p) => Some(FaceCorner { point: p, normal: None }),
            None => None,
        }
    } else if f.len() >= 3 {
        assert(f[0]@ == fields_of(tok@, 47)[0]);
        assert(f[2]@ == fields_of(tok@, 47)[2]);
        match parse_index(&f[0]) {
            Some(p) => match parse_index(&f[2]) {
                Some(n) => Some(FaceCorner { point: p, normal: Some(n) }),
                None => None,
            },
            None => None,
        }
    } else {
        None
    }
}

/// One line of the format, with the coordinate fields left unread.
pub enum Record {
    Vertex(Vec<u8>, Vec<u8>, Vec<u8>),
    Normal(Vec<u8>, Vec<u8>, Vec<u8>),
    Face(FaceCorner, FaceCorner, FaceCorner),
    Other,
}

pub enum RecordModel {
    Vertex(Seq<u8>, Seq<u8>, Seq<u8>),
    Normal(Seq<u8>, Seq<u8>, Seq<u8>),
    Face(FaceCorner, FaceCorner, FaceCorner),
    Other,
}

impl View for Record {
    type V = RecordModel;

    open spec fn view(&self) -> RecordModel {
        match self {
            Record::Vertex(x, y, z) => RecordModel::Vertex(x@, y@, z@),
            Record::Normal(x, y, z) => RecordModel::Normal(x@, y@, z@),
            Record::Face(a, b, c) => RecordModel::Face(*a, *b, *c),
            Record::Other => RecordModel::Other,
        }
    }
}

/// What the line says, or none when it is malformed: a `v`, `vn` or `f`
/// record with fewer than three fields after the first, or a face corner that
/// is not an index or `p/t/n`. Fields past the third are ignored.
pub open spec fn record_of(line: Seq<u8>) -> Option<RecordModel> {
    let f = fields_of(line, 32);
    if f[0] == seq![118u8] {
        if f.len() >= 4 {
            Some(RecordModel::Vertex(f[1], f[2], f[3]))
        } else {
            None
        }
    } else if f[0] == seq![118u8, 110u8] {
        if f.len() >= 4 {
            Some(RecordModel::Normal(f[1], f[2], f[3]))
        } else {
            None
        }
    } else if f[0] == seq![102u8] {
        if f.len() >= 4 && corner_of(f[1]).is_some() && corner_of(f[2]).is_some() && corner_of(f[3]).is_some() {
            Some(RecordModel::Face(corner_of(f[1]).unwrap(), corner_of(f[2]).unwrap(), corner_of(f[3]).unwrap()))
        } else {
            None
        }
    } else {
        Some(RecordModel::Other)
    }
}

fn is_word(f: &Vec<u8>, word: &[u8]) -> (r: bool)
    ensures
        r == (f@ == word@),
{
    if f.len() != word.len() {
        return false;
    }
    let mut k: usize = 0;
    while k < f.len()
        invariant
            k <= f.len() == word@.len(),
            forall|i: int| 0 <= i < k ==> f@[i] == word@[i],
        decreases f.len() - k,
    {
        if f[k] != word[k] {
            return false;
        }
        k = k + 1;
    }
    assert(f@ =~= word@);
    true
}

/// Reads one line.
pub fn parse_record(line: &Vec<u8>) -> (r: Option<Record>)
    ensures
        r.is_some() == record_of(line@).is_some(),
        r.is_some() ==> r.unwrap()@ == record_of(line@).unwrap(),
{
    let f = split_fields(line, 32);
    let ghost fs = fields_of(line@, 32);
    proof {
        lemma_fields_nonempty(line@, 32);
        assert(f@.len() == fs.len());
        assert forall|i: int| 0 <= i < f@.len() implies #[trigger] f@[i]@ == fs[i] by {
            assert(views(f@)[i] == f@[i]@);
        }
    }
    if is_word(&f[0], &[118u8]) {
        assert(seq![118u8] =~= [118u8]@);
        if f.len() >= 4 {
            Some(Record::Vertex(f[1].clone(), f[2].clone(), f[3].clone()))
        } else {
            None
        }
    } else if is_word(&f[0], &[118u8, 110u8]) {
        assert(seq![118u8] =~= [118u8]@);
        assert(seq![118u8, 110u8] =~= [118u8, 110u8]@);
        if f.len() >= 4 {
            Some(Record::Normal(f[1].clone(), f[2].clone(), f[3].clone()))
        } else {
            None
        }
    } else if is_word(&f[0], &[102u8]) {
        assert(seq![118u8] =~= [118u8]@);
        assert(seq![118u8, 110u8] =~= [118u8, 110u8]@);
        assert(seq![102u8] =~= [102u8]@);
        if f.len() < 4 {
            return None;
        }
        match (parse_corner(&f[1]), parse_corner(&f[2]), parse_corner(&f[3])) {
            (Some(a), Some(b), Some(c)) => Some(Record::Face(a, b, c)),
            _ => None,
        }
    } else {
        assert(seq![118u8] =~= [118u8]@);
        assert(seq![118u8, 110u8] =~= [118u8, 110u8]@);
        assert(seq![102u8] =~= [102u8]@);
        Some(Record::Other)
    }
}

/// Three 0-based indices, one per corner.
#[derive(Clone, Copy, Debug, PartialEq, Eq, Structural)]
pub struct Indices3 {
    pub a: usize,
    pub b: usize,
    pub c: usize,
}

/// A triangle as 0-based indices into the positions and, when all three
/// corners name one, the normals.
#[derive(Clone, Copy, Debug, PartialEq, Eq, Structural)]
pub struct TriangleIndices {
    pub points: Indices3,
    pub normals: Option<Indices3>,
}

pub open spec fn in_range(index: usize, count: usize) -> bool {
    1 <= index <= count
}

/// Every index that a corner gives lies in `1..=count` of its list.
pub open spec fn corner_in_range(c: FaceCorner, n_points: usize, n_normals: usize) -> bool {
    &&& in_range(c.point, n_points)
    &&& c.normal.is_some() ==> in_range(c.normal.unwrap(), n_normals)
}

fn corner_ok(c: FaceCorner, n_points: usize, n_normals: usize) -> (r: bool)
    ensures
        r == corner_in_range(c, n_points, n_normals),
{
    1 <= c.point && c.point <= n_points && match c.normal {
        Some(n) => 1 <= n && n <= n_normals,
        None => true,
    }
}

/// Turns the corners of a face into 0-based indices, given how many positions
/// and normals have been read; none when an index lies outside its list.
pub fn resolve_face(a: FaceCorner, b: FaceCorner, c: FaceCorner, n_points: usize, n_normals: usize) -> (r: Option<TriangleIndices>)
    ensures
        r.is_some() == (corner_in_range(a, n_points, n_normals) && corner_in_range(b, n_points, n_normals)
            && corner_in_range(c, n_points, n_normals)),
        r.is_some() ==> r.unwrap().points == (Indices3 {
            a: (a.point - 1) as usize,
            b: (b.point - 1) as usize,
            c: (c.point - 1) as usize,
        }),
        r.is_some() ==> (r.unwrap().normals.is_some() == (a.normal.is_some() && b.normal.is_some()
            && c.normal.is_some())),
        r.is_some() && r.unwrap().normals.is_some() ==> r.unwrap().normals.unwrap() == (Indices3 {
            a: (a.normal.unwrap() - 1) as usize,
            b: (b.normal.unwrap() - 1) as usize,
            c: (c.normal.unwrap() - 1) as usize,
        }),
{
    if !(corner_ok(a, n_points, n_normals) && corner_ok(b, n_points, n_normals) && corner_ok(c, n_points, n_normals)) {
        return None;
    }
    let normals = match (a.normal, b.normal, c.normal) {
        (Some(na), Some(nb), Some(nc)) => Some(Indices3 { a: na - 1, b: nb - 1, c: nc - 1 }),
        _ => None,
    };
    Some(TriangleIndices { points: Indices3 { a: a.point - 1, b: b.point - 1, c: c.point - 1 }, normals })
}

} // verus!
