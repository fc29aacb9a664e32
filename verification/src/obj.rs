use vstd::prelude::*;

verus! {

/// A blank: a space, or one of the control characters from tab to
/// carriage return.
pub open spec fn is_space(b: u8) -> bool {
    b == 0x20 || (0x09 <= b && b <= 0x0D)
}

/// The bytes from `start` up to `end` are one field of the line: a run of
/// bytes that are not blank, with a blank or an end of the line on either
/// side.
pub open spec fn is_field(line: Seq<u8>, start: int, end: int) -> bool {
    &&& 0 <= start < end <= line.len()
    &&& forall|i: int| start <= i < end ==> !is_space(#[trigger] line[i])
    &&& (start == 0 || is_space(line[start - 1]))
    &&& (end == line.len() || is_space(line[end]))
}

/// `fields` are the fields of the line, from left to right: each is a
/// field, none is left out.
pub open spec fn fields_of(line: Seq<u8>, fields: Seq<(usize, usize)>) -> bool {
    &&& forall|k: int|
        0 <= k < fields.len() ==> is_field(line, (#[trigger] fields[k]).0 as int, fields[k].1 as int)
    &&& forall|j: int, k: int|
        0 <= j < k < fields.len() ==> (#[trigger] fields[j]).1 < (#[trigger] fields[k]).0
    &&& forall|i: int|
        0 <= i < line.len() && !is_space(#[trigger] line[i]) ==> exists|k: int|
            0 <= k < fields.len() && (#[trigger] fields[k]).0 <= i < fields[k].1
}

/// Tells whether a byte is a blank.
pub fn is_space_byte(b: u8) -> (r: bool)
    ensures
        r == is_space(b),
{
    b == 0x20 || (0x09 <= b && b <= 0x0D)
}

/// Splits a line into its fields.
pub fn split_fields(line: &[u8]) -> (fields: Vec<(usize, usize)>)
    ensures
        fields_of(line@, fields@),
{
    let n = line.len();
    let mut fields: Vec<(usize, usize)> = Vec::new();
    let mut i: usize = 0;
    while i < n
        invariant
            0 <= i <= n,
            n == line@.len(),
            forall|k: int|
                0 <= k < fields@.len() ==> is_field(
                    line@,
                    (#[trigger] fields@[k]).0 as int,
                    fields@[k].1 as int,
                ),
            forall|j: int, k: int|
                0 <= j < k < fields@.len() ==> (#[trigger] fields@[j]).1 < (#[trigger] fields@[k]).0,
            forall|p: int|
                0 <= p < i && !is_space(#[trigger] line@[p]) ==> exists|k: int|
                    0 <= k < fields@.len() && (#[trigger] fields@[k]).0 <= p < fields@[k].1,
            forall|k: int| 0 <= k < fields@.len() ==> (#[trigger] fields@[k]).1 <= i,
            i == 0 || is_space(line@[i - 1]) || (fields@.len() > 0 && fields@.last().1 == i),
        decreases n - i,
    {
        if is_space_byte(line[i]) {
            i = i + 1;
        } else {
            let start = i;
            while i < n && !is_space_byte(line[i])
                invariant
                    start <= i <= n,
                    n == line@.len(),
                    forall|p: int| start <= p < i ==> !is_space(#[trigger] line@[p]),
                decreases n - i,
            {
                i = i + 1;
            }
            let ghost before = fields@;
            fields.push((start, i));
            proof {
                let last = before.len() as int;
                assert(fields@[last] == (start, i));
                assert forall|k: int| 0 <= k < fields@.len() implies is_field(
                    line@,
                    (#[trigger] fields@[k]).0 as int,
                    fields@[k].1 as int,
                ) by {
                    if k < last {
                        assert(fields@[k] == before[k]);
                    }
                }
                assert forall|j: int, k: int| 0 <= j < k < fields@.len() implies (
                #[trigger] fields@[j]).1 < (#[trigger] fields@[k]).0 by {
                    assert(fields@[j] == before[j]);
                    if k < last {
                        assert(fields@[k] == before[k]);
                    } else {
                        assert(is_field(line@, before[j].0 as int, before[j].1 as int));
                    }
                }
                assert forall|p: int| 0 <= p < i && !is_space(#[trigger] line@[p]) implies exists|
                    k: int,
                |
                    0 <= k < fields@.len() && (#[trigger] fields@[k]).0 <= p < fields@[k].1 by {
                    if p < start {
                        let k = choose|k: int|
                            0 <= k < before.len() && (#[trigger] before[k]).0 <= p < before[k].1;
                        assert(fields@[k] == before[k]);
                    } else {
                        assert(fields@[last].0 <= p < fields@[last].1);
                    }
                }
                assert forall|k: int| 0 <= k < fields@.len() implies (#[trigger] fields@[k]).1
                    <= i by {
                    if k < last {
                        assert(fields@[k] == before[k]);
                    }
                }
            }
        }
    }
    fields
}

/// Why a line of a model is turned down.
#[derive(Clone, Copy, Debug, PartialEq, Eq, Structural)]
pub enum ObjError {
    /// An index of a face is not a whole number that fits.
    BadIndex,
}

/// What a line of a model holds, by its first field.
#[derive(Clone, Copy, Debug, PartialEq, Eq, Structural)]
pub enum Record {
    /// `v`: a position.
    Vertex,
    /// `vn`: a normal.
    Normal,
    /// `vt`: a texture coordinate.
    TexCoord,
    /// `f`: a face.
    Face,
    /// A comment, a blank line, or a command that is passed over.
    Other,
}

/// One corner of a face: the places of its position, of its texture
/// coordinate and of its normal in the lists read so far, counted from
/// zero.
#[derive(Clone, Copy, Debug, PartialEq, Eq, Structural)]
pub struct FaceCorner {
    pub vertex: usize,
    pub uv: Option<usize>,
    pub normal: Option<usize>,
}

/// A decimal digit.
pub open spec fn is_digit(b: u8) -> bool {
    0x30 <= b && b <= 0x39
}

/// The number that a run of decimal digits writes.
pub open spec fn decimal(digits: Seq<u8>) -> nat
    decreases digits.len(),
{
    if digits.len() == 0 {
        0
    } else {
        (decimal(digits.drop_last()) * 10 + (digits.last() - 0x30)) as nat
    }
}

/// The digits of a number: the token without a leading plus sign.
pub open spec fn digits_of(token: Seq<u8>) -> Seq<u8> {
    if token.len() > 0 && token[0] == 0x2B {
        token.subrange(1, token.len() as int)
    } else {
        token
    }
}

/// The token writes a whole number that fits: an optional plus sign, then
/// one decimal digit or more and nothing else.
pub open spec fn is_index(token: Seq<u8>) -> bool {
    let digits = digits_of(token);
    &&& digits.len() > 0
    &&& forall|i: int| 0 <= i < digits.len() ==> is_digit(#[trigger] digits[i])
    &&& decimal(digits) <= usize::MAX
}

/// The place that a one-based index names, zero standing for itself.
pub open spec fn place_of(token: Seq<u8>) -> usize {
    let n = decimal(digits_of(token));
    if n == 0 {
        0
    } else {
        (n - 1) as usize
    }
}

/// Where the first slash of a token stands, or its length where it has
/// none.
pub open spec fn first_slash(token: Seq<u8>) -> int
    decreases token.len(),
{
    if token.len() == 0 || token[0] == 0x2F {
        0
    } else {
        1 + first_slash(token.drop_first())
    }
}

/// Part `k` of a token cut at its slashes, or nothing where it has fewer
/// parts.
pub open spec fn part(token: Seq<u8>, k: nat) -> Option<Seq<u8>>
    decreases k,
{
    let cut = first_slash(token);
    if k == 0 {
        Some(token.subrange(0, cut))
    } else if cut >= token.len() {
        None
    } else {
        part(token.subrange(cut + 1, token.len() as int), (k - 1) as nat)
    }
}

/// An index of a corner that may be left out is there when its part is
/// there and not empty.
pub open spec fn is_given(p: Option<Seq<u8>>) -> bool {
    p is Some && p->0.len() > 0
}

/// The place named by an index that may be left out.
pub open spec fn optional_place(p: Option<Seq<u8>>) -> Option<usize> {
    if is_given(p) {
        Some(place_of(p->0))
    } else {
        None
    }
}

/// The corner that a field of a face writes: `v`, `v/t`, `v//n` or
/// `v/t/n`, each a one-based index. The first index must be there; an
/// index that is there must be a whole number that fits.
pub open spec fn corner_of(token: Seq<u8>) -> Result<FaceCorner, ObjError> {
    let v = part(token, 0)->0;
    let t = part(token, 1);
    let n = part(token, 2);
    if !is_index(v) || (is_given(t) && !is_index(t->0)) || (is_given(n) && !is_index(n->0)) {
        Err(ObjError::BadIndex)
    } else {
        Ok(FaceCorner { vertex: place_of(v), uv: optional_place(t), normal: optional_place(n) })
    }
}

/// A number grows with every digit written after it.
proof fn lemma_decimal_grows(digits: Seq<u8>, k: int)
    requires
        0 <= k <= digits.len(),
        forall|i: int| 0 <= i < digits.len() ==> is_digit(#[trigger] digits[i]),
    ensures
        decimal(digits.subrange(0, k)) <= decimal(digits),
    decreases digits.len() - k,
{
    if k == digits.len() {
        assert(digits.subrange(0, k) =~= digits);
    } else {
        lemma_decimal_grows(digits, k + 1);
        let longer = digits.subrange(0, k + 1);
        assert(longer.drop_last() =~= digits.subrange(0, k));
        assert(longer.last() == digits[k]);
        assert(decimal(longer) == decimal(digits.subrange(0, k)) * 10 + (digits[k] - 0x30));
    }
}

/// Reads the index written from `start` up to `end` of a line: the place
/// it names, or nothing where it is no whole number that fits.
pub fn parse_index(line: &[u8], start: usize, end: usize) -> (r: Option<usize>)
    requires
        start <= end <= line@.len(),
    ensures
        r is Some <==> is_index(line@.subrange(start as int, end as int)),
        r is Some ==> r->0 == place_of(line@.subrange(start as int, end as int)),
{
    let ghost token = line@.subrange(start as int, end as int);
    let mut i: usize = start;
    if i < end && line[i] == 0x2B {
        assert(token[0] == line@[start as int]);
        i = i + 1;
    } else if i < end {
        assert(token[0] == line@[start as int]);
    }
    let first = i;
    let ghost digits = digits_of(token);
    assert(digits =~= line@.subrange(first as int, end as int));
    if first == end {
        return None;
    }
    let mut value: usize = 0;
    while i < end
        invariant
            start <= first <= i <= end <= line@.len(),
            first < end,
            token == line@.subrange(start as int, end as int),
            digits == digits_of(token),
            digits == line@.subrange(first as int, end as int),
            forall|k: int| 0 <= k < i - first ==> is_digit(#[trigger] digits[k]),
            value == decimal(digits.subrange(0, i - first)),
        decreases end - i,
    {
        let b = line[i];
        assert(digits[i - first] == b);
        if b < 0x30 || b > 0x39 {
            return None;
        }
        let d: usize = (b - 0x30) as usize;
        proof {
            let longer = digits.subrange(0, i - first + 1);
            assert(longer.drop_last() =~= digits.subrange(0, i - first));
            assert(longer.last() == b);
            assert(decimal(longer) == value * 10 + d);
        }
        if value > (usize::MAX - d) / 10 {
            proof {
                if forall|k: int| 0 <= k < digits.len() ==> is_digit(#[trigger] digits[k]) {
                    lemma_decimal_grows(digits, i - first + 1);
                }
            }
            return None;
        }
        value = value * 10 + d;
        i = i + 1;
    }
    assert(digits.subrange(0, end - first) =~= digits);
    if value == 0 {
        Some(0)
    } else {
        Some(value - 1)
    }
}

/// The triangles that fan out from the first corner of a face with `count`
/// corners: for each corner but the first and the last, that corner, the
/// first, and the corner after it. Fewer than three corners make none.
pub fn fan_triangles(count: usize) -> (triangles: Vec<(usize, usize, usize)>)
    ensures
        count < 3 ==> triangles@.len() == 0,
        count >= 3 ==> triangles@.len() == count - 2,
        forall|k: int|
            0 <= k < triangles@.len() ==> #[trigger] triangles@[k] == (
                0usize,
                (k + 1) as usize,
                (k + 2) as usize,
            ),
{
    let mut triangles: Vec<(usize, usize, usize)> = Vec::new();
    if count < 3 {
        return triangles;
    }
    let mut i: usize = 1;
    while i < count - 1
        invariant
            1 <= i <= count - 1,
            triangles@.len() == i - 1,
            forall|k: int|
                0 <= k < triangles@.len() ==> #[trigger] triangles@[k] == (
                    0usize,
                    (k + 1) as usize,
                    (k + 2) as usize,
                ),
        decreases count - i,
    {
        triangles.push((0, i, i + 1));
        i = i + 1;
    }
    triangles
}

/// The first slash of a token is the first slash of what follows any
/// bytes before it that are no slashes.
proof fn lemma_first_slash_skips(token: Seq<u8>, k: int)
    requires
        0 <= k <= token.len(),
        forall|i: int| 0 <= i < k ==> #[trigger] token[i] != 0x2F,
    ensures
        first_slash(token) == k + first_slash(token.subrange(k, token.len() as int)),
    decreases k,
{
    if k == 0 {
        assert(token.subrange(0, token.len() as int) =~= token);
    } else {
        let rest = token.drop_first();
        assert forall|i: int| 0 <= i < k - 1 implies #[trigger] rest[i] != 0x2F by {
            assert(rest[i] == token[i + 1]);
        }
        lemma_first_slash_skips(rest, k - 1);
        assert(rest.subrange(k - 1, rest.len() as int) =~= token.subrange(k, token.len() as int));
        assert(token[0] != 0x2F);
    }
}

/// Finds the first slash from `start` up to `end` of a line, or `end`
/// where there is none.
pub fn find_slash(line: &[u8], start: usize, end: usize) -> (cut: usize)
    requires
        start <= end <= line@.len(),
    ensures
        start <= cut <= end,
        cut - start == first_slash(line@.subrange(start as int, end as int)),
{
    let ghost token = line@.subrange(start as int, end as int);
    let mut i: usize = start;
    while i < end && line[i] != 0x2F
        invariant
            start <= i <= end <= line@.len(),
            token == line@.subrange(start as int, end as int),
            forall|k: int| 0 <= k < i - start ==> #[trigger] token[k] != 0x2F,
        decreases end - i,
    {
        assert(token[i - start] == line@[i as int]);
        i = i + 1;
    }
    proof {
        lemma_first_slash_skips(token, i - start);
        let rest = token.subrange(i - start, token.len() as int);
        if i < end {
            assert(rest[0] == line@[i as int]);
        }
    }
    i
}

/// Reads an index that may be left out, written from `start` up to `end`.
fn parse_optional(line: &[u8], start: usize, end: usize) -> (r: Result<Option<usize>, ObjError>)
    requires
        start <= end <= line@.len(),
    ensures
        ({
            let p = Some(line@.subrange(start as int, end as int));
            if is_given(p) && !is_index(p->0) {
                r == Err::<Option<usize>, ObjError>(ObjError::BadIndex)
            } else {
                r == Ok::<Option<usize>, ObjError>(optional_place(p))
            }
        }),
{
    if start == end {
        return Ok(None);
    }
    match parse_index(line, start, end) {
        Some(place) => Ok(Some(place)),
        None => Err(ObjError::BadIndex),
    }
}

/// Reads the corner of a face written from `start` up to `end` of a line.
pub fn parse_face_corner(line: &[u8], start: usize, end: usize) -> (r: Result<FaceCorner, ObjError>)
    requires
        start <= end <= line@.len(),
    ensures
        r == corner_of(line@.subrange(start as int, end as int)),
{
    let ghost token = line@.subrange(start as int, end as int);
    proof {
        reveal_with_fuel(part, 3);
    }
    let c0 = find_slash(line, start, end);
    assert(token.subrange(0, c0 - start) =~= line@.subrange(start as int, c0 as int));
    let vertex = match parse_index(line, start, c0) {
        Some(place) => place,
        None => {
            return Err(ObjError::BadIndex);
        },
    };
    if c0 == end {
        assert(part(token, 1) is None);
        assert(part(token, 2) is None);
        return Ok(FaceCorner { vertex, uv: None, normal: None });
    }
    let s1 = c0 + 1;
    let ghost rest1 = token.subrange(c0 - start + 1, token.len() as int);
    assert(rest1 =~= line@.subrange(s1 as int, end as int));
    let c1 = find_slash(line, s1, end);
    assert(rest1.subrange(0, c1 - s1) =~= line@.subrange(s1 as int, c1 as int));
    assert(part(token, 1) == Some(line@.subrange(s1 as int, c1 as int)));
    assert(part(token, 2) == part(rest1, 1));
    let uv = match parse_optional(line, s1, c1) {
        Ok(place) => place,
        Err(e) => {
            return Err(e);
        },
    };
    if c1 == end {
        assert(part(rest1, 1) is None);
        return Ok(FaceCorner { vertex, uv, normal: None });
    }
    let s2 = c1 + 1;
    let ghost rest2 = rest1.subrange(c1 - s1 + 1, rest1.len() as int);
    assert(rest2 =~= line@.subrange(s2 as int, end as int));
    let c2 = find_slash(line, s2, end);
    assert(rest2.subrange(0, c2 - s2) =~= line@.subrange(s2 as int, c2 as int));
    assert(part(rest1, 1) == Some(line@.subrange(s2 as int, c2 as int)));
    let normal = match parse_optional(line, s2, c2) {
        Ok(place) => place,
        Err(e) => {
            return Err(e);
        },
    };
    Ok(FaceCorner { vertex, uv, normal })
}

/// What a line holds whose first field is `first` and which has `count`
/// fields. A position, a normal and a face need three fields after the
/// first, a texture coordinate two; a line with fewer is passed over, as
/// is a comment.
pub open spec fn record_of(first: Seq<u8>, count: nat) -> Record {
    if first =~= seq![0x76u8] && count >= 4 {
        Record::Vertex
    } else if first =~= seq![0x76u8, 0x6Eu8] && count >= 4 {
        Record::Normal
    } else if first =~= seq![0x76u8, 0x74u8] && count >= 3 {
        Record::TexCoord
    } else if first =~= seq![0x66u8] && count >= 4 {
        Record::Face
    } else {
        Record::Other
    }
}

/// Tells what a line holds from its fields.
pub fn classify(line: &[u8], fields: &Vec<(usize, usize)>) -> (record: Record)
    requires
        fields_of(line@, fields@),
    ensures
        fields@.len() == 0 ==> record == Record::Other,
        fields@.len() > 0 ==> record == record_of(
            line@.subrange(fields@[0].0 as int, fields@[0].1 as int),
            fields@.len(),
        ),
{
    if fields.len() == 0 {
        return Record::Other;
    }
    let (start, end) = fields[0];
    assert(is_field(line@, fields@[0].0 as int, fields@[0].1 as int));
    let ghost first = line@.subrange(start as int, end as int);
    let count = fields.len();
    let len = end - start;
    let b0 = line[start];
    assert(first[0] == b0);
    if len == 1 {
        if b0 == 0x76 && count >= 4 {
            Record::Vertex
        } else if b0 == 0x66 && count >= 4 {
            Record::Face
        } else {
            Record::Other
        }
    } else if len == 2 {
        let b1 = line[start + 1];
        assert(first[1] == b1);
        if b0 == 0x76 && b1 == 0x6E && count >= 4 {
            Record::Normal
        } else if b0 == 0x76 && b1 == 0x74 && count >= 3 {
            Record::TexCoord
        } else {
            Record::Other
        }
    } else {
        Record::Other
    }
}

/// The corners of a face read from the fields of its line before field
/// `upto`, the first field aside. A corner whose position is not among
/// the `vertex_count` read so far is dropped. One field that is no corner
/// turns the whole line down.
pub open spec fn face_corners(
    line: Seq<u8>,
    fields: Seq<(usize, usize)>,
    upto: int,
    vertex_count: nat,
) -> Result<Seq<FaceCorner>, ObjError>
    decreases upto,
{
    if upto <= 1 {
        Ok(Seq::empty())
    } else {
        match face_corners(line, fields, upto - 1, vertex_count) {
            Err(e) => Err(e),
            Ok(corners) => match corner_of(
                line.subrange(fields[upto - 1].0 as int, fields[upto - 1].1 as int),
            ) {
                Err(e) => Err(e),
                Ok(corner) => if corner.vertex < vertex_count {
                    Ok(corners.push(corner))
                } else {
                    Ok(corners)
                },
            },
        }
    }
}

/// Reads the corners of a face from the fields of its line.
pub fn parse_face(line: &[u8], fields: &Vec<(usize, usize)>, vertex_count: usize) -> (r: Result<
    Vec<FaceCorner>,
    ObjError,
>)
    requires
        fields_of(line@, fields@),
    ensures
        match r {
            Ok(corners) => face_corners(line@, fields@, fields@.len() as int, vertex_count as nat)
                == Ok::<Seq<FaceCorner>, ObjError>(corners@),
            Err(e) => face_corners(line@, fields@, fields@.len() as int, vertex_count as nat)
                == Err::<Seq<FaceCorner>, ObjError>(e),
        },
{
    let mut corners: Vec<FaceCorner> = Vec::new();
    let mut k: usize = 1;
    while k < fields.len()
        invariant
            1 <= k,
            fields_of(line@, fields@),
            k <= fields@.len() || k == 1,
            face_corners(line@, fields@, k as int, vertex_count as nat) == Ok::<
                Seq<FaceCorner>,
                ObjError,
            >(corners@),
        decreases fields@.len() - k,
    {
        let (start, end) = fields[k];
        assert(is_field(line@, fields@[k as int].0 as int, fields@[k as int].1 as int));
        match parse_face_corner(line, start, end) {
            Ok(corner) => {
                if corner.vertex < vertex_count {
                    corners.push(corner);
                }
            },
            Err(e) => {
                assert(face_corners(line@, fields@, k + 1, vertex_count as nat) == Err::<
                    Seq<FaceCorner>,
                    ObjError,
                >(e));
                proof {
                    lemma_face_error_stays(
                        line@,
                        fields@,
                        k + 1,
                        fields@.len() as int,
                        vertex_count as nat,
                    );
                }
                return Err(e);
            },
        }
        k = k + 1;
    }
    proof {
        if fields@.len() == 0 {
            assert(face_corners(line@, fields@, 0, vertex_count as nat) == face_corners(
                line@,
                fields@,
                1,
                vertex_count as nat,
            ));
        } else {
            assert(k == fields@.len());
        }
    }
    Ok(corners)
}

/// Once a field has turned a face down, no later field brings it back.
proof fn lemma_face_error_stays(
    line: Seq<u8>,
    fields: Seq<(usize, usize)>,
    at: int,
    upto: int,
    vertex_count: nat,
)
    requires
        at <= upto,
        face_corners(line, fields, at, vertex_count) is Err,
    ensures
        face_corners(line, fields, upto, vertex_count) == face_corners(
            line,
            fields,
            at,
            vertex_count,
        ),
    decreases upto - at,
{
    if at < upto {
        lemma_face_error_stays(line, fields, at, upto - 1, vertex_count);
    }
}

} // verus!
