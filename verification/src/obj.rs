use vstd::prelude::*;

verus! {

/// `c` is white space in the sense of Unicode's `White_Space` property.
pub open spec fn is_space(c: char) -> bool {
    let u = c as u32;
    ||| 0x09 <= u <= 0x0d
    ||| u == 0x20
    ||| u == 0x85
    ||| u == 0xa0
    ||| u == 0x1680
    ||| 0x2000 <= u <= 0x200a
    ||| u == 0x2028
    ||| u == 0x2029
    ||| u == 0x202f
    ||| u == 0x205f
    ||| u == 0x3000
}

/// Whether `c` is white space (Unicode's `White_Space` property).
pub fn space_char(c: char) -> (b: bool)
    ensures
        b == is_space(c),
{
    let u = c as u32;
    (0x09 <= u && u <= 0x0d) || u == 0x20 || u == 0x85 || u == 0xa0 || u == 0x1680 || (0x2000 <= u
        && u <= 0x200a) || u == 0x2028 || u == 0x2029 || u == 0x202f || u == 0x205f || u == 0x3000
}

/// The number of characters before the first white space of `s`.
pub open spec fn word_len(s: Seq<char>) -> nat
    decreases s.len(),
{
    if s.len() == 0 || is_space(s[0]) {
        0
    } else {
        1 + word_len(s.drop_first())
    }
}

/// A word is no longer than the text it starts.
pub proof fn lemma_word_len_bound(s: Seq<char>)
    ensures
        word_len(s) <= s.len(),
    decreases s.len(),
{
    if s.len() > 0 && !is_space(s[0]) {
        lemma_word_len_bound(s.drop_first());
    }
}

/// The words of `s`: its maximal runs of characters that are not white space.
pub open spec fn words(s: Seq<char>) -> Seq<Seq<char>>
    decreases s.len(),
{
    if s.len() == 0 {
        seq![]
    } else if is_space(s[0]) {
        words(s.drop_first())
    } else {
        let n = word_len(s);
        proof {
            lemma_word_len_bound(s);
        }
        seq![s.take(n as int)] + words(s.skip(n as int))
    }
}

/// The number of characters before the first line feed of `s`.
pub open spec fn line_len(s: Seq<char>) -> nat
    decreases s.len(),
{
    if s.len() == 0 || s[0] == '\n' {
        0
    } else {
        1 + line_len(s.drop_first())
    }
}

/// The pieces of `s` between line feeds; a text with `n` line feeds has `n + 1`
/// of them.
pub open spec fn split_lines(s: Seq<char>) -> Seq<Seq<char>>
    decreases s.len(),
{
    let n = line_len(s);
    if n >= s.len() {
        seq![s]
    } else {
        seq![s.take(n as int)] + split_lines(s.skip(n + 1int))
    }
}

/// The characters of `text`, one by one.
fn chars_of(text: &str) -> (cs: Vec<char>)
    ensures
        cs@ == text@,
{
    let mut cs: Vec<char> = Vec::new();
    for c in it: text.chars()
        invariant
            cs@ == it.seq().take(it.index() as int),
    {
        cs.push(c);
    }
    assert(cs@ =~= text@);
    cs
}

/// `c` is an ASCII decimal digit.
pub open spec fn is_digit(c: char) -> bool {
    '0' <= c <= '9'
}

/// The value of the decimal digits `s`.
pub open spec fn digits_value(s: Seq<char>) -> int
    decreases s.len(),
{
    if s.len() == 0 {
        0
    } else {
        10 * digits_value(s.drop_last()) + (s.last() as int - '0' as int)
    }
}

/// The digits of a face index: the word without a leading plus sign.
pub open spec fn index_digits(w: Seq<char>) -> Seq<char> {
    if w.len() > 0 && w[0] == '+' {
        w.drop_first()
    } else {
        w
    }
}

/// The value of the word `w` read as an unsigned machine integer: an optional
/// plus sign and at least one decimal digit, of a value that fits in `usize`.
pub open spec fn index_value(w: Seq<char>) -> Option<int> {
    let d = index_digits(w);
    if d.len() > 0 && (forall|i: int| 0 <= i < d.len() ==> is_digit(#[trigger] d[i]))
        && digits_value(d) <= usize::MAX {
        Some(digits_value(d))
    } else {
        None
    }
}

/// A longer run of digits has no smaller value.
proof fn lemma_digits_grow(s: Seq<char>, k: int)
    requires
        0 <= k <= s.len(),
        forall|i: int| 0 <= i < s.len() ==> is_digit(#[trigger] s[i]),
    ensures
        0 <= digits_value(s.take(k)) <= digits_value(s),
    decreases s.len() - k,
{
    if k < s.len() {
        lemma_digits_grow(s, k + 1);
        let p = s.take(k + 1);
        assert(p.drop_last() =~= s.take(k));
        assert(p.last() == s[k]);
    } else {
        assert(s.take(k) =~= s);
        lemma_digits_nonneg(s);
    }
}

proof fn lemma_digits_nonneg(s: Seq<char>)
    requires
        forall|i: int| 0 <= i < s.len() ==> is_digit(#[trigger] s[i]),
    ensures
        0 <= digits_value(s),
    decreases s.len(),
{
    if s.len() > 0 {
        let p = s.drop_last();
        assert forall|i: int| 0 <= i < p.len() implies is_digit(#[trigger] p[i]) by {
            assert(p[i] == s[i]);
        }
        lemma_digits_nonneg(p);
        assert(is_digit(s[s.len() - 1]));
    }
}

/// Reads `cs[start..end]` as an unsigned machine integer, like `str::parse::<usize>`.
fn parse_index(cs: &Vec<char>, start: usize, end: usize) -> (r: Option<usize>)
    requires
        start <= end <= cs@.len(),
    ensures
        match r {
            Some(v) => index_value(cs@.subrange(start as int, end as int)) == Some(v as int),
            None => index_value(cs@.subrange(start as int, end as int)) is None,
        },
{
    let ghost w = cs@.subrange(start as int, end as int);
    let mut i = start;
    if i < end && cs[i] == '+' {
        i = i + 1;
    }
    let ghost d = index_digits(w);
    assert(d =~= cs@.subrange(i as int, end as int));
    if i == end {
        return None;
    }
    let first = i;
    let mut value: usize = 0;
    while i < end
        invariant
            first <= i <= end <= cs@.len(),
            first < end,
            d =~= cs@.subrange(first as int, end as int),
            w == cs@.subrange(start as int, end as int),
            d == index_digits(w),
            forall|j: int| first <= j < i ==> is_digit(#[trigger] cs@[j]),
            value == digits_value(cs@.subrange(first as int, i as int)),
        decreases end - i,
    {
        let c = cs[i];
        if !('0' <= c && c <= '9') {
            assert(!is_digit(d[i - first]));
            return None;
        }
        let digit = (c as u32 - '0' as u32) as usize;
        let ghost next = cs@.subrange(first as int, i + 1);
        assert(next.drop_last() =~= cs@.subrange(first as int, i as int));
        match value.checked_mul(10) {
            None => {
                proof {
                    lemma_prefix_too_big(cs@, first as int, i as int, end as int);
                }
                return None;
            },
            Some(tens) => match tens.checked_add(digit) {
                None => {
                    proof {
                        lemma_prefix_too_big(cs@, first as int, i as int, end as int);
                    }
                    return None;
                },
                Some(v) => {
                    value = v;
                },
            },
        }
        i = i + 1;
    }
    assert(cs@.subrange(first as int, i as int) =~= d);
    Some(value)
}

/// Once a prefix of the digits is too large for `usize`, the word does not read
/// as an index.
proof fn lemma_prefix_too_big(cs: Seq<char>, first: int, i: int, end: int)
    requires
        0 <= first <= i < end <= cs.len(),
        forall|j: int| first <= j < i ==> is_digit(#[trigger] cs[j]),
        is_digit(cs[i]),
        digits_value(cs.subrange(first, i + 1)) > usize::MAX,
    ensures
        !((forall|j: int| 0 <= j < end - first ==> is_digit(#[trigger] cs.subrange(first, end)[j]))
            && digits_value(cs.subrange(first, end)) <= usize::MAX),
{
    let d = cs.subrange(first, end);
    if forall|j: int| 0 <= j < end - first ==> is_digit(#[trigger] d[j]) {
        lemma_digits_grow(d, i + 1 - first);
        assert(d.take(i + 1 - first) =~= cs.subrange(first, i + 1));
    }
}

/// Finds the next word of `cs[pos..end]`: returns its bounds, or `(end, end)`
/// when only white space is left.
fn next_word(cs: &Vec<char>, pos: usize, end: usize) -> (r: (usize, usize))
    requires
        pos <= end <= cs@.len(),
    ensures
        pos <= r.0 <= r.1 <= end,
        r.0 == r.1 ==> r.0 == end && words(cs@.subrange(pos as int, end as int)) == Seq::<
            Seq<char>,
        >::empty(),
        r.0 < r.1 ==> words(cs@.subrange(pos as int, end as int)) == seq![
            cs@.subrange(r.0 as int, r.1 as int),
        ] + words(cs@.subrange(r.1 as int, end as int)),
{
    let mut a = pos;
    while a < end && space_char(cs[a])
        invariant
            pos <= a <= end <= cs@.len(),
            words(cs@.subrange(pos as int, end as int)) == words(cs@.subrange(a as int, end as int)),
        decreases end - a,
    {
        let ghost sub = cs@.subrange(a as int, end as int);
        assert(sub.drop_first() =~= cs@.subrange(a + 1, end as int));
        a = a + 1;
    }
    if a == end {
        assert(cs@.subrange(a as int, end as int) =~= Seq::<char>::empty());
        return (end, end);
    }
    let mut b = a;
    while b < end && !space_char(cs[b])
        invariant
            a <= b <= end <= cs@.len(),
            word_len(cs@.subrange(a as int, end as int)) == (b - a) + word_len(
                cs@.subrange(b as int, end as int),
            ),
        decreases end - b,
    {
        let ghost sub = cs@.subrange(b as int, end as int);
        assert(sub.drop_first() =~= cs@.subrange(b + 1, end as int));
        b = b + 1;
    }
    let ghost sub = cs@.subrange(a as int, end as int);
    assert(word_len(cs@.subrange(b as int, end as int)) == 0);
    assert(sub.take(b - a) =~= cs@.subrange(a as int, b as int));
    assert(sub.skip(b - a) =~= cs@.subrange(b as int, end as int));
    (a, b)
}

/// The texts of the word bounds `rs` in `cs`.
pub open spec fn range_texts(cs: Seq<char>, rs: Seq<(usize, usize)>) -> Seq<Seq<char>> {
    rs.map_values(|r: (usize, usize)| cs.subrange(r.0 as int, r.1 as int))
}

/// The bounds of all the words of `cs[start..end]`.
fn line_words(cs: &Vec<char>, start: usize, end: usize) -> (rs: Vec<(usize, usize)>)
    requires
        start <= end <= cs@.len(),
    ensures
        range_texts(cs@, rs@) == words(cs@.subrange(start as int, end as int)),
        forall|k: int| 0 <= k < rs@.len() ==> start <= #[trigger] rs@[k].0 <= rs@[k].1 <= end,
{
    let mut rs: Vec<(usize, usize)> = Vec::new();
    let mut pos = start;
    loop
        invariant
            start <= pos <= end <= cs@.len(),
            words(cs@.subrange(start as int, end as int)) == range_texts(cs@, rs@) + words(
                cs@.subrange(pos as int, end as int),
            ),
            forall|k: int| 0 <= k < rs@.len() ==> start <= #[trigger] rs@[k].0 <= rs@[k].1 <= end,
        decreases end - pos,
    {
        let (a, b) = next_word(cs, pos, end);
        if a == b {
            assert(range_texts(cs@, rs@) + Seq::<Seq<char>>::empty() =~= range_texts(cs@, rs@));
            return rs;
        }
        let ghost before = rs@;
        rs.push((a, b));
        assert(range_texts(cs@, rs@) =~= range_texts(cs@, before).push(
            cs@.subrange(a as int, b as int),
        ));
        assert(range_texts(cs@, before) + (seq![cs@.subrange(a as int, b as int)] + words(
            cs@.subrange(b as int, end as int),
        )) =~= range_texts(cs@, rs@) + words(cs@.subrange(b as int, end as int)));
        pos = b;
    }
}

/// The end of the line that starts at `pos`: the position of the next line feed,
/// or the end of the text.
fn line_end(cs: &Vec<char>, pos: usize) -> (e: usize)
    requires
        pos <= cs@.len(),
    ensures
        pos <= e <= cs@.len(),
        e - pos == line_len(cs@.subrange(pos as int, cs@.len() as int)),
{
    let n = cs.len();
    let mut e = pos;
    while e < n && cs[e] != '\n'
        invariant
            pos <= e <= n == cs@.len(),
            line_len(cs@.subrange(pos as int, n as int)) == (e - pos) + line_len(
                cs@.subrange(e as int, n as int),
            ),
        decreases n - e,
    {
        let ghost sub = cs@.subrange(e as int, n as int);
        assert(sub.drop_first() =~= cs@.subrange(e + 1, n as int));
        e = e + 1;
    }
    e
}

/// Why a mesh text could not be read; `line` counts from 1.
#[derive(Clone, Copy, Debug, PartialEq, Eq, Structural)]
pub enum ObjError {
    /// A vertex line with fewer than three coordinates, or a face line with
    /// fewer than three indices.
    MissingField { line: usize },
    /// A face index that is not an unsigned integer of `usize`, or is zero.
    BadIndex { line: usize },
}

/// The three coordinate words of a vertex line, as text.
pub struct VertexText {
    pub x: Vec<char>,
    pub y: Vec<char>,
    pub z: Vec<char>,
}

impl VertexText {
    pub open spec fn words_view(self) -> Seq<Seq<char>> {
        seq![self.x@, self.y@, self.z@]
    }
}

/// What a mesh text holds: the coordinate words of its vertices, and its faces
/// as triples of indices into the vertices, counted from 0.
pub struct ObjData {
    pub vertices: Vec<VertexText>,
    pub faces: Vec<[usize; 3]>,
}

/// A line whose first word is `v`.
pub open spec fn is_vertex_line(l: Seq<char>) -> bool {
    words(l).len() > 0 && words(l)[0] == seq!['v']
}

/// A line whose first word is `f`.
pub open spec fn is_face_line(l: Seq<char>) -> bool {
    words(l).len() > 0 && words(l)[0] == seq!['f']
}

/// What is wrong with the `k`-th word of a face line, if anything.
pub open spec fn field_error(w: Seq<Seq<char>>, k: int, line: int) -> Option<ObjError> {
    if w.len() <= k {
        Some(ObjError::MissingField { line: line as usize })
    } else {
        match index_value(w[k]) {
            Some(v) => if v >= 1 {
                None
            } else {
                Some(ObjError::BadIndex { line: line as usize })
            },
            None => Some(ObjError::BadIndex { line: line as usize }),
        }
    }
}

/// What is wrong with line `l`, number `line`, if anything: a vertex line needs
/// three words after `v`; a face line needs three indices of at least 1 after
/// `f`, looked at in order. Other lines are ignored.
pub open spec fn line_error(l: Seq<char>, line: int) -> Option<ObjError> {
    let w = words(l);
    if is_vertex_line(l) {
        if w.len() < 4 {
            Some(ObjError::MissingField { line: line as usize })
        } else {
            None
        }
    } else if is_face_line(l) {
        if field_error(w, 1, line) is Some {
            field_error(w, 1, line)
        } else if field_error(w, 2, line) is Some {
            field_error(w, 2, line)
        } else {
            field_error(w, 3, line)
        }
    } else {
        None
    }
}

/// The error of the first faulty line among `ls`, if any.
pub open spec fn first_error(ls: Seq<Seq<char>>) -> Option<ObjError>
    decreases ls.len(),
{
    if ls.len() == 0 {
        None
    } else if first_error(ls.drop_last()) is Some {
        first_error(ls.drop_last())
    } else {
        line_error(ls.last(), ls.len() as int)
    }
}

/// The coordinate words of the vertex lines among `ls`, in order.
pub open spec fn obj_vertices(ls: Seq<Seq<char>>) -> Seq<Seq<Seq<char>>>
    decreases ls.len(),
{
    if ls.len() == 0 {
        seq![]
    } else if is_vertex_line(ls.last()) {
        obj_vertices(ls.drop_last()).push(words(ls.last()).subrange(1, 4))
    } else {
        obj_vertices(ls.drop_last())
    }
}

/// The face of a face line: its three indices, each less one.
pub open spec fn face_of(l: Seq<char>) -> (usize, usize, usize) {
    let w = words(l);
    (
        (index_value(w[1])->0 - 1) as usize,
        (index_value(w[2])->0 - 1) as usize,
        (index_value(w[3])->0 - 1) as usize,
    )
}

/// The faces of the face lines among `ls`, in order.
pub open spec fn obj_faces(ls: Seq<Seq<char>>) -> Seq<(usize, usize, usize)>
    decreases ls.len(),
{
    if ls.len() == 0 {
        seq![]
    } else if is_face_line(ls.last()) {
        obj_faces(ls.drop_last()).push(face_of(ls.last()))
    } else {
        obj_faces(ls.drop_last())
    }
}

impl ObjData {
    /// The data holds the vertices and faces of the lines `ls`.
    pub open spec fn holds(self, ls: Seq<Seq<char>>) -> bool {
        &&& self.vertices@.map_values(|v: VertexText| v.words_view()) == obj_vertices(ls)
        &&& self.faces@.map_values(|f: [usize; 3]| (f[0], f[1], f[2])) == obj_faces(ls)
    }
}

/// The characters `cs[a..b]`.
fn copy_range(cs: &Vec<char>, a: usize, b: usize) -> (r: Vec<char>)
    requires
        a <= b <= cs@.len(),
    ensures
        r@ == cs@.subrange(a as int, b as int),
{
    let mut r: Vec<char> = Vec::new();
    let mut i = a;
    while i < b
        invariant
            a <= i <= b <= cs@.len(),
            r@ == cs@.subrange(a as int, i as int),
        decreases b - i,
    {
        r.push(cs[i]);
        assert(r@ =~= cs@.subrange(a as int, i + 1));
        i = i + 1;
    }
    r
}

/// Reads the `k`-th word of a face line, number `line`, as an index from 0.
fn face_field(cs: &Vec<char>, rs: &Vec<(usize, usize)>, k: usize, line: usize) -> (r: Result<
    usize,
    ObjError,
>)
    requires
        forall|j: int| 0 <= j < rs@.len() ==> #[trigger] rs@[j].0 <= rs@[j].1 <= cs@.len(),
    ensures
        match r {
            Ok(v) => field_error(range_texts(cs@, rs@), k as int, line as int) is None && v
                == index_value(range_texts(cs@, rs@)[k as int])->0 - 1,
            Err(e) => field_error(range_texts(cs@, rs@), k as int, line as int) == Some(e),
        },
{
    if rs.len() <= k {
        return Err(ObjError::MissingField { line });
    }
    let (a, b) = rs[k];
    match parse_index(cs, a, b) {
        Some(v) => {
            if v >= 1 {
                Ok(v - 1)
            } else {
                Err(ObjError::BadIndex { line })
            }
        },
        None => Err(ObjError::BadIndex { line }),
    }
}

/// The first word of a line is the single character `c`.
fn first_word_is(cs: &Vec<char>, rs: &Vec<(usize, usize)>, c: char) -> (b: bool)
    requires
        forall|j: int| 0 <= j < rs@.len() ==> #[trigger] rs@[j].0 <= rs@[j].1 <= cs@.len(),
    ensures
        b == (rs@.len() > 0 && range_texts(cs@, rs@)[0] == seq![c]),
{
    if rs.len() == 0 {
        return false;
    }
    let (a, e) = rs[0];
    let ghost w = range_texts(cs@, rs@)[0];
    if e - a == 1 && cs[a] == c {
        assert(w =~= seq![c]);
        true
    } else {
        assert(w.len() != 1 || w[0] != c);
        false
    }
}

/// A faulty line decides the error whatever lines follow it.
proof fn lemma_first_error_prefix(a: Seq<Seq<char>>, b: Seq<Seq<char>>)
    requires
        first_error(a) is Some,
    ensures
        first_error(a + b) == first_error(a),
    decreases b.len(),
{
    if b.len() == 0 {
        assert(a + b =~= a);
    } else {
        lemma_first_error_prefix(a, b.drop_last());
        assert((a + b).drop_last() =~= a + b.drop_last());
    }
}

/// Reads a mesh in the Wavefront OBJ text format: the lines of `text` (pieces
/// between line feeds) whose first word is `v` give a vertex from their next
/// three words, which are kept as text; those whose first word is `f` give a
/// face from their next three words, read as indices counted from 1 and stored
/// counted from 0. Further words, and all other lines, are ignored. The first
/// line that lacks a word, or holds an index that is not a positive `usize`,
/// is reported.
pub fn parse_obj(text: &str) -> (r: Result<ObjData, ObjError>)
    requires
        text@.len() < usize::MAX,
    ensures
        match r {
            Ok(d) => first_error(split_lines(text@)) is None && d.holds(split_lines(text@)),
            Err(e) => first_error(split_lines(text@)) == Some(e),
        },
{
    let cs = chars_of(text);
    let n = cs.len();
    let mut vertices: Vec<VertexText> = Vec::new();
    let mut faces: Vec<[usize; 3]> = Vec::new();
    let mut pos: usize = 0;
    let mut line: usize = 1;
    let ghost mut done: Seq<Seq<char>> = seq![];
    assert(cs@.subrange(0, n as int) =~= cs@);
    assert(vertices@.map_values(|v: VertexText| v.words_view()) =~= obj_vertices(done));
    assert(faces@.map_values(|f: [usize; 3]| (f[0], f[1], f[2])) =~= obj_faces(done));
    loop
        invariant
            n == cs@.len() < usize::MAX,
            cs@ == text@,
            pos <= n,
            line == done.len() + 1,
            line <= pos + 1,
            split_lines(cs@) == done + split_lines(cs@.subrange(pos as int, n as int)),
            first_error(done) is None,
            (ObjData { vertices, faces }).holds(done),
        decreases n - pos,
    {
        let end = line_end(&cs, pos);
        let ghost l = cs@.subrange(pos as int, end as int);
        let ghost rest = cs@.subrange(pos as int, n as int);
        assert(rest.take(end - pos) =~= l);
        let rs = line_words(&cs, pos, end);
        let ghost w = range_texts(cs@, rs@);
        assert(w == words(l));
        let ghost next_done = done.push(l);
        assert(next_done.drop_last() =~= done);
        let ghost old_vertices = vertices@;
        let ghost old_faces = faces@;
        let ghost tail = if end == n {
            Seq::<Seq<char>>::empty()
        } else {
            split_lines(cs@.subrange(end + 1, n as int))
        };
        proof {
            if end == n {
                assert(rest =~= l);
            } else {
                assert(rest.skip(end - pos + 1) =~= cs@.subrange(end + 1, n as int));
            }
            assert(split_lines(cs@) =~= next_done + tail);
            if line_error(l, line as int) is Some {
                lemma_first_error_prefix(next_done, tail);
            }
        }
        if first_word_is(&cs, &rs, 'v') {
            if rs.len() < 4 {
                return Err(ObjError::MissingField { line });
            }
            let x = copy_range(&cs, rs[1].0, rs[1].1);
            let y = copy_range(&cs, rs[2].0, rs[2].1);
            let z = copy_range(&cs, rs[3].0, rs[3].1);
            assert(seq![x@, y@, z@] =~= w.subrange(1, 4));
            assert(!is_face_line(l)) by {
                assert(seq!['v'][0] != seq!['f'][0]);
            }
            vertices.push(VertexText { x, y, z });
            assert(vertices@.map_values(|v: VertexText| v.words_view()) =~= old_vertices.map_values(
                |v: VertexText| v.words_view(),
            ).push(w.subrange(1, 4)));
            assert(faces@.map_values(|f: [usize; 3]| (f[0], f[1], f[2])) == obj_faces(next_done));
        } else if first_word_is(&cs, &rs, 'f') {
            let a = match face_field(&cs, &rs, 1, line) {
                Ok(v) => v,
                Err(e) => {
                    return Err(e);
                },
            };
            let b = match face_field(&cs, &rs, 2, line) {
                Ok(v) => v,
                Err(e) => {
                    return Err(e);
                },
            };
            let c = match face_field(&cs, &rs, 3, line) {
                Ok(v) => v,
                Err(e) => {
                    return Err(e);
                },
            };
            faces.push([a, b, c]);
            assert(faces@.map_values(|f: [usize; 3]| (f[0], f[1], f[2])) =~= old_faces.map_values(
                |f: [usize; 3]| (f[0], f[1], f[2]),
            ).push(face_of(l)));
            assert(vertices@.map_values(|v: VertexText| v.words_view()) == obj_vertices(next_done));
        } else {
            assert(vertices@.map_values(|v: VertexText| v.words_view()) == obj_vertices(next_done));
            assert(faces@.map_values(|f: [usize; 3]| (f[0], f[1], f[2])) == obj_faces(next_done));
        }
        proof {
            done = next_done;
        }
        if end == n {
            assert(split_lines(rest) == seq![rest]);
            assert(rest =~= l);
            assert(split_lines(cs@) =~= done);
            return Ok(ObjData { vertices, faces });
        }
        assert(rest.skip(end - pos + 1) =~= cs@.subrange(end + 1, n as int));
        assert(split_lines(cs@) =~= done + split_lines(cs@.subrange(end + 1, n as int)));
        pos = end + 1;
        line = line + 1;
    }
}

proof fn lemma_line_len_concat(a: Seq<char>, c: Seq<char>)
    ensures
        line_len(a + c) == if line_len(a) < a.len() {
            line_len(a)
        } else {
            a.len() + line_len(c)
        },
        line_len(a) <= a.len(),
    decreases a.len(),
{
    if a.len() == 0 {
        assert(a + c =~= c);
    } else {
        lemma_line_len_concat(a.drop_first(), c);
        assert((a + c).drop_first() =~= a.drop_first() + c);
        assert((a + c)[0] == a[0]);
    }
}

proof fn lemma_split_lines_concat(a: Seq<char>, b: Seq<char>)
    ensures
        split_lines(a + seq!['\n'] + b) == split_lines(a) + split_lines(b),
    decreases a.len(),
{
    let nl = seq!['\n'];
    let s = a + nl + b;
    lemma_line_len_concat(a, nl + b);
    assert(a + nl + b =~= a + (nl + b));
    lemma_line_len_concat(nl, b);
    if line_len(a) < a.len() {
        let k = line_len(a);
        let a2 = a.skip(k + 1int);
        lemma_split_lines_concat(a2, b);
        assert(s.take(k as int) =~= a.take(k as int));
        assert(s.skip(k + 1int) =~= a2 + nl + b);
        assert(split_lines(a) == seq![a.take(k as int)] + split_lines(a2));
        assert(split_lines(s) =~= split_lines(a) + split_lines(b));
    } else {
        assert(line_len(a) == a.len());
        assert(line_len(s) == a.len());
        assert(s.take(a.len() as int) =~= a);
        assert(s.skip(a.len() + 1int) =~= b);
        assert(split_lines(a) == seq![a]);
        assert(split_lines(s) =~= split_lines(a) + split_lines(b));
    }
}

proof fn lemma_records_concat(l1: Seq<Seq<char>>, l2: Seq<Seq<char>>)
    ensures
        obj_vertices(l1 + l2) == obj_vertices(l1) + obj_vertices(l2),
        obj_faces(l1 + l2) == obj_faces(l1) + obj_faces(l2),
        (first_error(l1 + l2) is None) == (first_error(l1) is None && first_error(l2) is None),
    decreases l2.len(),
{
    if l2.len() == 0 {
        assert(l1 + l2 =~= l1);
        assert(obj_vertices(l1) + obj_vertices(l2) =~= obj_vertices(l1));
        assert(obj_faces(l1) + obj_faces(l2) =~= obj_faces(l1));
    } else {
        lemma_records_concat(l1, l2.drop_last());
        let l = l1 + l2;
        assert(l.drop_last() =~= l1 + l2.drop_last());
        assert(l.last() == l2.last());
        assert(obj_vertices(l) =~= obj_vertices(l1) + obj_vertices(l2));
        assert(obj_faces(l) =~= obj_faces(l1) + obj_faces(l2));
    }
}

/// Joining two mesh texts with a line feed joins their meshes: the vertices of
/// the first are followed by those of the second, and so are the faces, whose
/// indices are kept as written. The joined text reads without error exactly
/// when both do.
pub proof fn lemma_mesh_concat(a: Seq<char>, b: Seq<char>)
    ensures
        obj_vertices(split_lines(a + seq!['\n'] + b)) == obj_vertices(split_lines(a))
            + obj_vertices(split_lines(b)),
        obj_faces(split_lines(a + seq!['\n'] + b)) == obj_faces(split_lines(a)) + obj_faces(
            split_lines(b),
        ),
        (first_error(split_lines(a + seq!['\n'] + b)) is None) == (first_error(split_lines(a))
            is None && first_error(split_lines(b)) is None),
{
    lemma_split_lines_concat(a, b);
    lemma_records_concat(split_lines(a), split_lines(b));
}

/// The decimal digit character of `d`, for `d < 10`.
pub open spec fn digit_char(d: nat) -> char {
    (48 + d) as char
}

/// The decimal text of `n`, without leading zeros.
pub open spec fn decimal(n: nat) -> Seq<char>
    decreases n,
{
    if n < 10 {
        seq![digit_char(n)]
    } else {
        decimal(n / 10).push(digit_char(n % 10))
    }
}

proof fn lemma_decimal_digits(n: nat)
    ensures
        decimal(n).len() > 0,
        forall|i: int| 0 <= i < decimal(n).len() ==> is_digit(#[trigger] decimal(n)[i]),
        digits_value(decimal(n)) == n,
    decreases n,
{
    assert('0' as int == 48);
    if n < 10 {
        assert(digit_char(n) as int == 48 + n);
        assert(decimal(n).drop_last() =~= Seq::<char>::empty());
        assert(digits_value(Seq::<char>::empty()) == 0);
        assert(decimal(n).last() == digit_char(n));
        assert(digits_value(decimal(n)) == 10 * digits_value(decimal(n).drop_last()) + (decimal(
            n,
        ).last() as int - '0' as int));
    } else {
        lemma_decimal_digits(n / 10);
        let d = decimal(n);
        assert(d.drop_last() =~= decimal(n / 10));
        assert(digit_char(n % 10) as int == 48 + n % 10);
        vstd::arithmetic::div_mod::lemma_fundamental_div_mod(n as int, 10);
        assert(d.last() == digit_char(n % 10));
        assert(digits_value(d) == 10 * digits_value(d.drop_last()) + (d.last() as int - '0' as int));
        assert forall|i: int| 0 <= i < d.len() implies is_digit(#[trigger] d[i]) by {
            if i < d.len() - 1 {
                assert(d[i] == decimal(n / 10)[i]);
            }
        }
    }
}

/// A face word that is the decimal text of a number that fits in `usize`,
/// with or without a leading plus sign, reads as that number; a face line holding
/// it therefore stores the number less one.
pub proof fn lemma_index_of_decimal(n: nat)
    requires
        n <= usize::MAX,
    ensures
        index_value(decimal(n)) == Some(n as int),
        index_value(seq!['+'] + decimal(n)) == Some(n as int),
{
    lemma_decimal_digits(n);
    assert(decimal(n)[0] != '+') by {
        assert(is_digit(decimal(n)[0]));
    }
    assert(index_digits(decimal(n)) == decimal(n));
    assert((seq!['+'] + decimal(n)).drop_first() =~= decimal(n));
    assert(index_digits(seq!['+'] + decimal(n)) == decimal(n));
}

proof fn lemma_word_len_word(w: Seq<char>, r: Seq<char>)
    requires
        forall|i: int| 0 <= i < w.len() ==> !is_space(#[trigger] w[i]),
    ensures
        word_len(w + r) == w.len() + word_len(r),
    decreases w.len(),
{
    if w.len() == 0 {
        assert(w + r =~= r);
    } else {
        let w2 = w.drop_first();
        assert forall|i: int| 0 <= i < w2.len() implies !is_space(#[trigger] w2[i]) by {
            assert(w2[i] == w[i + 1]);
        }
        lemma_word_len_word(w2, r);
        assert((w + r).drop_first() =~= w2 + r);
        assert((w + r)[0] == w[0]);
    }
}

/// A word followed by a space and more text is the first word of that text.
proof fn lemma_words_cons(w: Seq<char>, r: Seq<char>)
    requires
        w.len() > 0,
        forall|i: int| 0 <= i < w.len() ==> !is_space(#[trigger] w[i]),
    ensures
        words(w + seq![' '] + r) == seq![w] + words(r),
{
    let sp = seq![' '];
    let s = w + sp + r;
    assert(s =~= w + (sp + r));
    lemma_word_len_word(w, sp + r);
    assert((sp + r)[0] == ' ');
    assert(is_space(' '));
    assert(word_len(sp + r) == 0);
    assert(s[0] == w[0]);
    assert(s.take(w.len() as int) =~= w);
    assert(s.skip(w.len() as int) =~= sp + r);
    assert((sp + r).drop_first() =~= r);
    assert(word_len(s) == w.len());
    assert(!is_space(s[0]));
    assert(words(sp + r) == words(r));
    assert(words(s) == seq![s.take(w.len() as int)] + words(s.skip(w.len() as int)));
}

/// A single word is its own only word.
proof fn lemma_words_single(w: Seq<char>)
    requires
        w.len() > 0,
        forall|i: int| 0 <= i < w.len() ==> !is_space(#[trigger] w[i]),
    ensures
        words(w) == seq![w],
{
    lemma_word_len_word(w, Seq::<char>::empty());
    assert(w + Seq::<char>::empty() =~= w);
    assert(word_len(w) == w.len());
    assert(!is_space(w[0]));
    assert(w.take(w.len() as int) =~= w);
    assert(w.skip(w.len() as int) =~= Seq::<char>::empty());
    assert(words(Seq::<char>::empty()) =~= Seq::<Seq<char>>::empty());
    assert(words(w) == seq![w.take(w.len() as int)] + words(w.skip(w.len() as int)));
    assert(seq![w] + Seq::<Seq<char>>::empty() =~= seq![w]);
}

proof fn lemma_one_line(s: Seq<char>)
    requires
        forall|i: int| 0 <= i < s.len() ==> #[trigger] s[i] != '\n',
    ensures
        split_lines(s) == seq![s],
    decreases s.len(),
{
    lemma_line_len_all(s);
}

proof fn lemma_line_len_all(s: Seq<char>)
    requires
        forall|i: int| 0 <= i < s.len() ==> #[trigger] s[i] != '\n',
    ensures
        line_len(s) == s.len(),
    decreases s.len(),
{
    if s.len() > 0 {
        let t = s.drop_first();
        assert forall|i: int| 0 <= i < t.len() implies #[trigger] t[i] != '\n' by {
            assert(t[i] == s[i + 1]);
        }
        lemma_line_len_all(t);
    }
}

/// A word: characters that are neither white space nor a line feed.
pub open spec fn is_word(w: Seq<char>) -> bool {
    &&& w.len() > 0
    &&& forall|i: int| 0 <= i < w.len() ==> !is_space(#[trigger] w[i])
}

/// The one line `v x y z`, for any three words, reads as the single vertex
/// `[x, y, z]` and no face.
pub proof fn lemma_vertex_line(x: Seq<char>, y: Seq<char>, z: Seq<char>)
    requires
        is_word(x),
        is_word(y),
        is_word(z),
    ensures
        first_error(split_lines(seq!['v', ' '] + x + seq![' '] + y + seq![' '] + z)) is None,
        obj_vertices(split_lines(seq!['v', ' '] + x + seq![' '] + y + seq![' '] + z)) == seq![
            seq![x, y, z],
        ],
        obj_faces(split_lines(seq!['v', ' '] + x + seq![' '] + y + seq![' '] + z)) == Seq::<
            (usize, usize, usize),
        >::empty(),
{
    let v = seq!['v'];
    let l = seq!['v', ' '] + x + seq![' '] + y + seq![' '] + z;
    assert(is_space('\n'));
    assert forall|i: int| 0 <= i < l.len() implies #[trigger] l[i] != '\n' by {
        if i >= 2 && i < 2 + x.len() {
            assert(l[i] == x[i - 2]);
        } else if i >= 3 + x.len() && i < 3 + x.len() + y.len() {
            assert(l[i] == y[i - 3 - x.len()]);
        } else if i >= 4 + x.len() + y.len() {
            assert(l[i] == z[i - 4 - x.len() - y.len()]);
        }
    }
    lemma_one_line(l);
    assert(!is_space('v'));
    lemma_words_single(z);
    lemma_words_cons(y, z);
    lemma_words_cons(x, y + seq![' '] + z);
    lemma_words_cons(v, x + seq![' '] + (y + seq![' '] + z));
    assert(l =~= v + seq![' '] + (x + seq![' '] + (y + seq![' '] + z)));
    assert(y + seq![' '] + z =~= y + seq![' '] + z);
    let w = words(l);
    assert(w =~= seq![v, x, y, z]);
    assert(seq![l].drop_last() =~= Seq::<Seq<char>>::empty());
    assert(w.subrange(1, 4) =~= seq![x, y, z]);
    assert(!is_face_line(l)) by {
        assert(v[0] != seq!['f'][0]);
    }
    assert(seq![l].last() == l);
    assert(w.len() == 4 && w[0] == v);
    assert(is_vertex_line(l));
    assert(first_error(Seq::<Seq<char>>::empty()) is None);
    assert(line_error(l, 1) is None);
    assert(obj_vertices(Seq::<Seq<char>>::empty()) =~= Seq::<Seq<Seq<char>>>::empty());
    assert(obj_faces(Seq::<Seq<char>>::empty()) =~= Seq::<(usize, usize, usize)>::empty());
    assert(obj_vertices(seq![l]) =~= seq![seq![x, y, z]]);
}

/// The one line `f a b c`, for any three numbers from 1 to `usize::MAX` written
/// in decimal, reads as the single face `(a - 1, b - 1, c - 1)` and no vertex.
pub proof fn lemma_face_line(a: nat, b: nat, c: nat)
    requires
        1 <= a <= usize::MAX,
        1 <= b <= usize::MAX,
        1 <= c <= usize::MAX,
    ensures
        first_error(split_lines(seq!['f', ' '] + decimal(a) + seq![' '] + decimal(b) + seq![' ']
            + decimal(c))) is None,
        obj_faces(split_lines(seq!['f', ' '] + decimal(a) + seq![' '] + decimal(b) + seq![' ']
            + decimal(c))) == seq![((a - 1) as usize, (b - 1) as usize, (c - 1) as usize)],
        obj_vertices(split_lines(seq!['f', ' '] + decimal(a) + seq![' '] + decimal(b) + seq![' ']
            + decimal(c))) == Seq::<Seq<Seq<char>>>::empty(),
{
    lemma_decimal_words(a);
    lemma_decimal_words(b);
    lemma_decimal_words(c);
    lemma_index_of_decimal(a);
    lemma_index_of_decimal(b);
    lemma_index_of_decimal(c);
    let (x, y, z) = (decimal(a), decimal(b), decimal(c));
    let f = seq!['f'];
    let l = seq!['f', ' '] + x + seq![' '] + y + seq![' '] + z;
    assert forall|i: int| 0 <= i < l.len() implies #[trigger] l[i] != '\n' by {
        assert(is_space('\n'));
        if i >= 2 && i < 2 + x.len() {
            assert(l[i] == x[i - 2]);
        } else if i >= 3 + x.len() && i < 3 + x.len() + y.len() {
            assert(l[i] == y[i - 3 - x.len()]);
        } else if i >= 4 + x.len() + y.len() {
            assert(l[i] == z[i - 4 - x.len() - y.len()]);
        }
    }
    lemma_one_line(l);
    assert(!is_space('f'));
    lemma_words_single(z);
    lemma_words_cons(y, z);
    lemma_words_cons(x, y + seq![' '] + z);
    lemma_words_cons(f, x + seq![' '] + (y + seq![' '] + z));
    assert(l =~= f + seq![' '] + (x + seq![' '] + (y + seq![' '] + z)));
    let w = words(l);
    assert(w =~= seq![f, x, y, z]);
    assert(seq![l].drop_last() =~= Seq::<Seq<char>>::empty());
    assert(!is_vertex_line(l)) by {
        assert(f[0] != seq!['v'][0]);
    }
    assert(seq![l].last() == l);
    assert(w.len() == 4 && w[0] == f && w[1] == x && w[2] == y && w[3] == z);
    assert(is_face_line(l));
    assert(first_error(Seq::<Seq<char>>::empty()) is None);
    assert(field_error(w, 1, 1) is None);
    assert(field_error(w, 2, 1) is None);
    assert(field_error(w, 3, 1) is None);
    assert(line_error(l, 1) is None);
    assert(obj_vertices(Seq::<Seq<char>>::empty()) =~= Seq::<Seq<Seq<char>>>::empty());
    assert(obj_faces(Seq::<Seq<char>>::empty()) =~= Seq::<(usize, usize, usize)>::empty());
    assert(face_of(l) == ((a - 1) as usize, (b - 1) as usize, (c - 1) as usize));
    assert(obj_faces(seq![l]) =~= seq![((a - 1) as usize, (b - 1) as usize, (c - 1) as usize)]);
}

/// The decimal text of a number is a word.
proof fn lemma_decimal_words(n: nat)
    ensures
        is_word(decimal(n)),
{
    lemma_decimal_digits(n);
    assert forall|i: int| 0 <= i < decimal(n).len() implies !is_space(#[trigger] decimal(n)[i]) by {
        assert(is_digit(decimal(n)[i]));
    }
}

/// The line number an error reports.
pub open spec fn error_line(e: ObjError) -> int {
    match e {
        ObjError::MissingField { line } => line as int,
        ObjError::BadIndex { line } => line as int,
    }
}

/// The reported error is that of the first faulty line, numbered from 1: the
/// line it names exists and is faulty with that very error, and every line
/// before it is sound. A text without error has no faulty line at all.
pub proof fn lemma_first_error_is_first_faulty_line(ls: Seq<Seq<char>>)
    requires
        ls.len() <= usize::MAX,
    ensures
        match first_error(ls) {
            Some(e) => {
                &&& 1 <= error_line(e) <= ls.len()
                &&& line_error(ls[error_line(e) - 1], error_line(e)) == Some(e)
                &&& forall|i: int| 0 <= i < error_line(e) - 1 ==> #[trigger] line_error(ls[i], i + 1) is None
            },
            None => forall|i: int| 0 <= i < ls.len() ==> #[trigger] line_error(ls[i], i + 1) is None,
        },
    decreases ls.len(),
{
    if ls.len() > 0 {
        let p = ls.drop_last();
        lemma_first_error_is_first_faulty_line(p);
        assert forall|i: int| 0 <= i < p.len() implies ls[i] == #[trigger] p[i] by {}
        match first_error(p) {
            Some(e) => {
                assert(ls[error_line(e) - 1] == p[error_line(e) - 1]);
                assert forall|i: int| 0 <= i < error_line(e) - 1 implies #[trigger] line_error(ls[i], i + 1) is None by {
                    assert(ls[i] == p[i]);
                }
            },
            None => {
                match line_error(ls.last(), ls.len() as int) {
                    Some(e) => {
                        assert(error_line(e) == ls.len()) by {
                            match e {
                                ObjError::MissingField { line } => {},
                                ObjError::BadIndex { line } => {},
                            }
                        }
                        assert forall|i: int| 0 <= i < error_line(e) - 1 implies #[trigger] line_error(ls[i], i + 1) is None by {
                            assert(ls[i] == p[i]);
                        }
                    },
                    None => {
                        assert forall|i: int| 0 <= i < ls.len() implies #[trigger] line_error(ls[i], i + 1) is None by {
                            if i < p.len() {
                                assert(ls[i] == p[i]);
                            }
                        }
                    },
                }
            },
        }
    }
}

/// A vertex line `v x y` with only two coordinates is refused as missing a
/// field, reported at line 1, whatever the two words.
pub proof fn lemma_short_vertex_line(x: Seq<char>, y: Seq<char>)
    requires
        is_word(x),
        is_word(y),
    ensures
        first_error(split_lines(seq!['v', ' '] + x + seq![' '] + y)) == Some(
            ObjError::MissingField { line: 1 },
        ),
{
    let v = seq!['v'];
    let l = seq!['v', ' '] + x + seq![' '] + y;
    assert forall|i: int| 0 <= i < l.len() implies #[trigger] l[i] != '\n' by {
        assert(is_space('\n'));
        if i >= 2 && i < 2 + x.len() {
            assert(l[i] == x[i - 2]);
        } else if i >= 3 + x.len() {
            assert(l[i] == y[i - 3 - x.len()]);
        }
    }
    lemma_one_line(l);
    assert(!is_space('v'));
    lemma_words_single(y);
    lemma_words_cons(x, y);
    lemma_words_cons(v, x + seq![' '] + y);
    assert(l =~= v + seq![' '] + (x + seq![' '] + y));
    let w = words(l);
    assert(w =~= seq![v, x, y]);
    assert(seq![l].drop_last() =~= Seq::<Seq<char>>::empty());
    assert(seq![l].last() == l);
    assert(is_vertex_line(l));
    assert(first_error(Seq::<Seq<char>>::empty()) is None);
}

/// A face line whose first index is 0 is refused as a bad index, reported at
/// line 1, whatever its other two indices.
pub proof fn lemma_zero_face_index(b: nat, c: nat)
    requires
        b <= usize::MAX,
        c <= usize::MAX,
    ensures
        first_error(split_lines(seq!['f', ' '] + decimal(0) + seq![' '] + decimal(b) + seq![' ']
            + decimal(c))) == Some(ObjError::BadIndex { line: 1 }),
{
    lemma_decimal_words(0);
    lemma_decimal_words(b);
    lemma_decimal_words(c);
    lemma_index_of_decimal(0);
    let (x, y, z) = (decimal(0), decimal(b), decimal(c));
    let f = seq!['f'];
    let l = seq!['f', ' '] + x + seq![' '] + y + seq![' '] + z;
    assert forall|i: int| 0 <= i < l.len() implies #[trigger] l[i] != '\n' by {
        assert(is_space('\n'));
        if i >= 2 && i < 2 + x.len() {
            assert(l[i] == x[i - 2]);
        } else if i >= 3 + x.len() && i < 3 + x.len() + y.len() {
            assert(l[i] == y[i - 3 - x.len()]);
        } else if i >= 4 + x.len() + y.len() {
            assert(l[i] == z[i - 4 - x.len() - y.len()]);
        }
    }
    lemma_one_line(l);
    assert(!is_space('f'));
    lemma_words_single(z);
    lemma_words_cons(y, z);
    lemma_words_cons(x, y + seq![' '] + z);
    lemma_words_cons(f, x + seq![' '] + (y + seq![' '] + z));
    assert(l =~= f + seq![' '] + (x + seq![' '] + (y + seq![' '] + z)));
    let w = words(l);
    assert(w =~= seq![f, x, y, z]);
    assert(seq![l].drop_last() =~= Seq::<Seq<char>>::empty());
    assert(seq![l].last() == l);
    assert(!is_vertex_line(l)) by {
        assert(f[0] != seq!['v'][0]);
    }
    assert(is_face_line(l));
    assert(first_error(Seq::<Seq<char>>::empty()) is None);
}

/// A face word with a minus sign is never an index.
pub proof fn lemma_negative_index(n: nat)
    ensures
        index_value(seq!['-'] + decimal(n)) is None,
{
    let w = seq!['-'] + decimal(n);
    assert(w[0] == '-');
    assert(index_digits(w) == w);
    assert(!is_digit(w[0]));
}

} // verus!
