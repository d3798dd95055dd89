//! The text form of lines and circles: `Line(nx=<n>,ny=<n>,d=<n>)` and
//! `Circle(c.x=<n>,c.y=<n>,r2=<n>)`, where each `<n>` is a nonempty run of
//! the characters `0-9 . e -`. The numbers themselves are handed out as text.
use vstd::prelude::*;

verus! {

/// The shapes that have a text form.
#[derive(Debug, Clone, Copy, PartialEq, Eq, Structural)]
pub enum ShapeKind {
    Line,
    Circle,
}

/// Why a text is not the form of a shape.
#[derive(Debug, Clone, Copy, PartialEq, Eq, Structural)]
pub enum TextError {
    /// There is no `(`.
    NoParenthesis,
    /// The name before the first `(` is not a shape.
    WrongHead,
    /// Rays and segments have no text form to read.
    Unsupported,
    /// The name is right but the rest does not follow the form.
    WrongFormat,
}

/// The three numbers of a shape's text form, as text.
pub struct ShapeFields {
    pub kind: ShapeKind,
    pub first: Vec<u8>,
    pub second: Vec<u8>,
    pub third: Vec<u8>,
}

/// A character that may stand in a number.
pub open spec fn is_number_char(b: u8) -> bool {
    (48 <= b && b <= 57) || b == 46 || b == 101 || b == 45
}

/// A nonempty run of number characters.
pub open spec fn number_text(a: Seq<u8>) -> bool {
    a.len() > 0 && forall|i: int| 0 <= i < a.len() ==> is_number_char(#[trigger] a[i])
}

pub open spec fn line_name() -> Seq<u8> {
    seq![76u8, 105, 110, 101]
}

pub open spec fn circle_name() -> Seq<u8> {
    seq![67u8, 105, 114, 99, 108, 101]
}

pub open spec fn ray_name() -> Seq<u8> {
    seq![82u8, 97, 121]
}

pub open spec fn segment_name() -> Seq<u8> {
    seq![83u8, 101, 103, 109, 101, 110, 116]
}

/// The text before the first number: the name, `(` and the first label.
pub open spec fn opening(k: ShapeKind) -> Seq<u8> {
    match k {
        // "Line(nx="
        ShapeKind::Line => line_name() + seq![40u8, 110, 120, 61],
        // "Circle(c.x="
        ShapeKind::Circle => circle_name() + seq![40u8, 99, 46, 120, 61],
    }
}

/// The text between the first and the second number.
pub open spec fn middle_1(k: ShapeKind) -> Seq<u8> {
    match k {
        // ",ny="
        ShapeKind::Line => seq![44u8, 110, 121, 61],
        // ",c.y="
        ShapeKind::Circle => seq![44u8, 99, 46, 121, 61],
    }
}

/// The text between the second and the third number.
pub open spec fn middle_2(k: ShapeKind) -> Seq<u8> {
    match k {
        // ",d="
        ShapeKind::Line => seq![44u8, 100, 61],
        // ",r2="
        ShapeKind::Circle => seq![44u8, 114, 50, 61],
    }
}

/// The text form of a shape with the given numbers.
pub open spec fn shape_text(k: ShapeKind, a: Seq<u8>, b: Seq<u8>, c: Seq<u8>) -> Seq<u8> {
    opening(k) + a + middle_1(k) + b + middle_2(k) + c + seq![41u8]
}

/// `s` starts with the text form of a shape with the given numbers.
pub open spec fn starts_with_shape(s: Seq<u8>, k: ShapeKind, a: Seq<u8>, b: Seq<u8>, c: Seq<u8>) -> bool {
    &&& number_text(a)
    &&& number_text(b)
    &&& number_text(c)
    &&& shape_text(k, a, b, c).is_prefix_of(s)
}

/// `p` is the position of the first `(` of `s`.
pub open spec fn is_first_parenthesis(s: Seq<u8>, p: int) -> bool {
    &&& 0 <= p < s.len()
    &&& s[p] == 40u8
    &&& forall|j: int| 0 <= j < p ==> s[j] != 40u8
}

/// The text before the first `(`.
pub open spec fn head(s: Seq<u8>) -> Seq<u8> {
    s.take(choose|p: int| is_first_parenthesis(s, p))
}

/// Numbers of a shape of kind `k` that `s` starts with, where there are any.
pub open spec fn chosen_fields(s: Seq<u8>, k: ShapeKind) -> (Seq<u8>, Seq<u8>, Seq<u8>) {
    choose|a: Seq<u8>, b: Seq<u8>, c: Seq<u8>| starts_with_shape(s, k, a, b, c)
}

/// The shape whose name `h` is.
pub open spec fn kind_named(h: Seq<u8>) -> Option<ShapeKind> {
    if h == line_name() {
        Some(ShapeKind::Line)
    } else if h == circle_name() {
        Some(ShapeKind::Circle)
    } else {
        None
    }
}

/// `s` starts with the text form of a shape of kind `k`.
pub open spec fn has_shape(s: Seq<u8>, k: ShapeKind) -> bool {
    exists|a: Seq<u8>, b: Seq<u8>, c: Seq<u8>| starts_with_shape(s, k, a, b, c)
}

/// What reading `s` gives: the numbers of the shape it starts with, or why
/// it is no shape. Text after the closing `)` is ignored.
pub open spec fn parsed(s: Seq<u8>) -> Result<(ShapeKind, Seq<u8>, Seq<u8>, Seq<u8>), TextError> {
    if !s.contains(40u8) {
        Err(TextError::NoParenthesis)
    } else {
        match kind_named(head(s)) {
            Some(k) => if has_shape(s, k) {
                Ok((k, chosen_fields(s, k).0, chosen_fields(s, k).1, chosen_fields(s, k).2))
            } else {
                Err(TextError::WrongFormat)
            },
            None => if head(s) == ray_name() || head(s) == segment_name() {
                Err(TextError::Unsupported)
            } else {
                Err(TextError::WrongHead)
            },
        }
    }
}

/// The fields of a reading result, as sequences.
pub open spec fn fields_view(r: Result<ShapeFields, TextError>) -> Result<(ShapeKind, Seq<u8>, Seq<u8>, Seq<u8>), TextError> {
    match r {
        Ok(f) => Ok((f.kind, f.first@, f.second@, f.third@)),
        Err(e) => Err(e),
    }
}

/// A run of number characters that ends where `s` ends or at a character of
/// another kind is determined by where it starts.
proof fn lemma_number_run(s: Seq<u8>, pos: int, a: Seq<u8>, end: int)
    requires
        0 <= pos <= end <= s.len(),
        forall|i: int| pos <= i < end ==> is_number_char(#[trigger] s[i]),
        end == s.len() || !is_number_char(s[end]),
        number_text(a),
        pos + a.len() < s.len(),
        s.subrange(pos, pos + a.len()) == a,
        !is_number_char(s[pos + a.len()]),
    ensures
        end == pos + a.len(),
{
    if end < pos + a.len() {
        assert(s[end] == a[end - pos]);
    }
    if end > pos + a.len() {
        assert(is_number_char(s[pos + a.len()]));
    }
}

/// Two texts that `s` starts with, with numbers, are the same text.
proof fn lemma_shape_unique(
    s: Seq<u8>,
    k: ShapeKind,
    a: Seq<u8>,
    b: Seq<u8>,
    c: Seq<u8>,
    a2: Seq<u8>,
    b2: Seq<u8>,
    c2: Seq<u8>,
)
    requires
        starts_with_shape(s, k, a, b, c),
        starts_with_shape(s, k, a2, b2, c2),
    ensures
        a == a2 && b == b2 && c == c2,
{
    let t1 = shape_text(k, a, b, c);
    let t2 = shape_text(k, a2, b2, c2);
    let o: int = opening(k).len() as int;
    assert forall|i: int| 0 <= i < t1.len() implies s[i] == t1[i] by {}
    assert forall|i: int| 0 <= i < t2.len() implies s[i] == t2[i] by {}
    // first number
    let e1: int = o + a.len();
    let e2: int = o + a2.len();
    assert(s[e1] == 44u8) by {
        assert(t1[e1] == middle_1(k)[0]);
    }
    assert(s[e2] == 44u8) by {
        assert(t2[e2] == middle_1(k)[0]);
    }
    if e1 < e2 {
        assert(t2[e1] == a2[e1 - o]);
        assert(is_number_char(a2[e1 - o]));
    }
    if e2 < e1 {
        assert(t1[e2] == a[e2 - o]);
        assert(is_number_char(a[e2 - o]));
    }
    assert(a =~= a2) by {
        assert forall|i: int| 0 <= i < a.len() implies a[i] == a2[i] by {
            assert(t1[o + i] == a[i]);
            assert(t2[o + i] == a2[i]);
        }
    }
    // second number
    let m1: int = middle_1(k).len() as int;
    let f1: int = e1 + m1 + b.len();
    let f2: int = e1 + m1 + b2.len();
    assert(s[f1] == 44u8) by {
        assert(t1[f1] == middle_2(k)[0]);
    }
    assert(s[f2] == 44u8) by {
        assert(t2[f2] == middle_2(k)[0]);
    }
    if f1 < f2 {
        assert(t2[f1] == b2[f1 - e1 - m1]);
        assert(is_number_char(b2[f1 - e1 - m1]));
    }
    if f2 < f1 {
        assert(t1[f2] == b[f2 - e1 - m1]);
        assert(is_number_char(b[f2 - e1 - m1]));
    }
    assert(b =~= b2) by {
        assert forall|i: int| 0 <= i < b.len() implies b[i] == b2[i] by {
            assert(t1[e1 + m1 + i] == b[i]);
            assert(t2[e1 + m1 + i] == b2[i]);
        }
    }
    // third number
    let m2: int = middle_2(k).len() as int;
    let g1: int = f1 + m2 + c.len();
    let g2: int = f1 + m2 + c2.len();
    assert(s[g1] == 41u8) by {
        assert(t1[g1] == 41u8);
    }
    assert(s[g2] == 41u8) by {
        assert(t2[g2] == 41u8);
    }
    if g1 < g2 {
        assert(t2[g1] == c2[g1 - f1 - m2]);
        assert(is_number_char(c2[g1 - f1 - m2]));
    }
    if g2 < g1 {
        assert(t1[g2] == c[g2 - f1 - m2]);
        assert(is_number_char(c[g2 - f1 - m2]));
    }
    assert(c =~= c2) by {
        assert forall|i: int| 0 <= i < c.len() implies c[i] == c2[i] by {
            assert(t1[f1 + m2 + i] == c[i]);
            assert(t2[f1 + m2 + i] == c2[i]);
        }
    }
}

/// Reading the text form of a line or a circle gives back its numbers.
pub proof fn law_text_round_trip(k: ShapeKind, a: Seq<u8>, b: Seq<u8>, c: Seq<u8>)
    requires
        number_text(a),
        number_text(b),
        number_text(c),
    ensures
        parsed(shape_text(k, a, b, c)) == Ok::<(ShapeKind, Seq<u8>, Seq<u8>, Seq<u8>), TextError>((k, a, b, c)),
{
    let s = shape_text(k, a, b, c);
    assert(s.is_prefix_of(s));
    assert(starts_with_shape(s, k, a, b, c));
    lemma_head_of_shape(s, k, a, b, c);
    assert(line_name() != circle_name()) by {
        assert(line_name().len() != circle_name().len());
    }
    let f = chosen_fields(s, k);
    assert(has_shape(s, k));
    lemma_shape_unique(s, k, a, b, c, f.0, f.1, f.2);
}

/// A text that starts with a shape's form has that shape's name as head.
proof fn lemma_head_of_shape(s: Seq<u8>, k: ShapeKind, a: Seq<u8>, b: Seq<u8>, c: Seq<u8>)
    requires
        starts_with_shape(s, k, a, b, c),
    ensures
        s.contains(40u8),
        head(s) == (match k {
            ShapeKind::Line => line_name(),
            ShapeKind::Circle => circle_name(),
        }),
{
    let t = shape_text(k, a, b, c);
    let name = match k {
        ShapeKind::Line => line_name(),
        ShapeKind::Circle => circle_name(),
    };
    let n: int = name.len() as int;
    assert(t[n as int] == 40u8);
    assert(s[n as int] == 40u8);
    assert forall|i: int| 0 <= i < n implies s[i] != 40u8 && s[i] == name[i] by {
        assert(t[i] == name[i]);
    }
    assert(is_first_parenthesis(s, n));
    let p = choose|p: int| is_first_parenthesis(s, p);
    assert(s.contains(40u8));
    assert(p == n) by {
        if p < n {
            assert(s[p] != 40u8);
        }
        if p > n {
            assert(s[n as int] == 40u8);
        }
    }
    assert(head(s) =~= name);
}

/// The position where the run of number characters from `pos` ends.
fn scan_number(s: &Vec<u8>, pos: usize) -> (r: usize)
    requires
        pos <= s@.len(),
    ensures
        pos <= r <= s@.len(),
        forall|i: int| pos <= i < r ==> is_number_char(#[trigger] s@[i]),
        r == s@.len() || !is_number_char(s@[r as int]),
{
    let mut i = pos;
    while i < s.len()
        invariant
            pos <= i <= s@.len(),
            forall|j: int| pos <= j < i ==> is_number_char(#[trigger] s@[j]),
        decreases s.len() - i,
    {
        let b = s[i];
        if !((48 <= b && b <= 57) || b == 46 || b == 101 || b == 45) {
            return i;
        }
        i = i + 1;
    }
    i
}

/// `s` holds `lit` at position `pos`.
fn holds_at(s: &Vec<u8>, pos: usize, lit: &Vec<u8>) -> (r: bool)
    ensures
        r == (pos + lit@.len() <= s@.len() && s@.subrange(pos as int, pos + lit@.len()) == lit@),
{
    let n = s.len();
    if pos > n || lit.len() > n - pos {
        return false;
    }
    let mut i: usize = 0;
    while i < lit.len()
        invariant
            n == s@.len(),
            pos + lit@.len() <= s@.len(),
            i <= lit@.len(),
            forall|j: int| 0 <= j < i ==> s@[pos + j] == lit@[j],
        decreases lit.len() - i,
    {
        if s[pos + i] != lit[i] {
            assert(s@.subrange(pos as int, pos + lit@.len())[i as int] != lit@[i as int]);
            return false;
        }
        i = i + 1;
    }
    assert(s@.subrange(pos as int, pos + lit@.len()) =~= lit@);
    true
}

/// A copy of `s[from..to]`.
fn copy_range(s: &Vec<u8>, from: usize, to: usize) -> (r: Vec<u8>)
    requires
        from <= to <= s@.len(),
    ensures
        r@ == s@.subrange(from as int, to as int),
{
    let mut r: Vec<u8> = Vec::new();
    let mut i = from;
    while i < to
        invariant
            from <= i <= to <= s@.len(),
            r@ == s@.subrange(from as int, i as int),
        decreases to - i,
    {
        r.push(s[i]);
        i = i + 1;
        assert(r@ =~= s@.subrange(from as int, i as int));
    }
    r
}

fn opening_bytes(k: ShapeKind) -> (r: Vec<u8>)
    ensures
        r@ == opening(k),
{
    let r = match k {
        ShapeKind::Line => vec![76u8, 105, 110, 101, 40, 110, 120, 61],
        ShapeKind::Circle => vec![67u8, 105, 114, 99, 108, 101, 40, 99, 46, 120, 61],
    };
    assert(r@ =~= opening(k));
    r
}

fn middle_1_bytes(k: ShapeKind) -> (r: Vec<u8>)
    ensures
        r@ == middle_1(k),
{
    let r = match k {
        ShapeKind::Line => vec![44u8, 110, 121, 61],
        ShapeKind::Circle => vec![44u8, 99, 46, 121, 61],
    };
    assert(r@ =~= middle_1(k));
    r
}

fn middle_2_bytes(k: ShapeKind) -> (r: Vec<u8>)
    ensures
        r@ == middle_2(k),
{
    let r = match k {
        ShapeKind::Line => vec![44u8, 100, 61],
        ShapeKind::Circle => vec![44u8, 114, 50, 61],
    };
    assert(r@ =~= middle_2(k));
    r
}

/// Where the parts of a shape's text lie in a text that starts with it.
proof fn lemma_text_parts(s: Seq<u8>, k: ShapeKind, a: Seq<u8>, b: Seq<u8>, c: Seq<u8>)
    requires
        starts_with_shape(s, k, a, b, c),
    ensures
        ({
            let p1 = opening(k).len() as int;
            let e1 = p1 + a.len();
            let p2 = e1 + middle_1(k).len();
            let e2 = p2 + b.len();
            let p3 = e2 + middle_2(k).len();
            let e3 = p3 + c.len();
            &&& e3 < s.len()
            &&& s.subrange(0, p1) == opening(k)
            &&& s.subrange(p1, e1) == a
            &&& s[e1] == 44u8
            &&& s.subrange(e1, p2) == middle_1(k)
            &&& s.subrange(p2, e2) == b
            &&& s[e2] == 44u8
            &&& s.subrange(e2, p3) == middle_2(k)
            &&& s.subrange(p3, e3) == c
            &&& s[e3] == 41u8
            &&& s.subrange(e3, e3 + 1) == seq![41u8]
        }),
{
    let t = shape_text(k, a, b, c);
    let p1 = opening(k).len() as int;
    let e1 = p1 + a.len();
    let p2 = e1 + middle_1(k).len();
    let e2 = p2 + b.len();
    let p3 = e2 + middle_2(k).len();
    let e3 = p3 + c.len();
    assert forall|i: int| 0 <= i < t.len() implies s[i] == t[i] by {}
    assert(s.subrange(0, p1) =~= opening(k)) by {
        assert forall|i: int| 0 <= i < p1 implies s.subrange(0, p1)[i] == opening(k)[i] by {
            assert(t[i] == opening(k)[i]);
        }
    }
    assert(s.subrange(p1, e1) =~= a) by {
        assert forall|i: int| 0 <= i < a.len() implies s.subrange(p1, e1)[i] == a[i] by {
            assert(t[p1 + i] == a[i]);
        }
    }
    assert(s.subrange(e1, p2) =~= middle_1(k)) by {
        assert forall|i: int| 0 <= i < p2 - e1 implies s.subrange(e1, p2)[i] == middle_1(k)[i] by {
            assert(t[e1 + i] == middle_1(k)[i]);
        }
    }
    assert(s[e1] == 44u8) by {
        assert(t[e1] == middle_1(k)[0]);
    }
    assert(s.subrange(p2, e2) =~= b) by {
        assert forall|i: int| 0 <= i < b.len() implies s.subrange(p2, e2)[i] == b[i] by {
            assert(t[p2 + i] == b[i]);
        }
    }
    assert(s.subrange(e2, p3) =~= middle_2(k)) by {
        assert forall|i: int| 0 <= i < p3 - e2 implies s.subrange(e2, p3)[i] == middle_2(k)[i] by {
            assert(t[e2 + i] == middle_2(k)[i]);
        }
    }
    assert(s[e2] == 44u8) by {
        assert(t[e2] == middle_2(k)[0]);
    }
    assert(s.subrange(p3, e3) =~= c) by {
        assert forall|i: int| 0 <= i < c.len() implies s.subrange(p3, e3)[i] == c[i] by {
            assert(t[p3 + i] == c[i]);
        }
    }
    assert(s[e3] == 41u8) by {
        assert(t[e3] == 41u8);
    }
    assert(s.subrange(e3, e3 + 1) =~= seq![41u8]);
}

/// A text that holds the parts of a shape's text one after another starts
/// with that text.
proof fn lemma_text_from_parts(
    s: Seq<u8>,
    k: ShapeKind,
    a: Seq<u8>,
    b: Seq<u8>,
    c: Seq<u8>,
    p1: int,
    e1: int,
    p2: int,
    e2: int,
    p3: int,
    e3: int,
)
    requires
        0 <= p1 <= e1 <= p2 <= e2 <= p3 <= e3 < s.len(),
        s.subrange(0, p1) == opening(k),
        s.subrange(p1, e1) == a,
        s.subrange(e1, p2) == middle_1(k),
        s.subrange(p2, e2) == b,
        s.subrange(e2, p3) == middle_2(k),
        s.subrange(p3, e3) == c,
        s.subrange(e3, e3 + 1) == seq![41u8],
    ensures
        shape_text(k, a, b, c).is_prefix_of(s),
{
    let tt = shape_text(k, a, b, c);
    assert(tt.len() == e3 + 1);
    assert forall|i: int| 0 <= i < tt.len() implies tt[i] == s[i] by {
        if i < p1 {
            assert(s.subrange(0, p1)[i] == opening(k)[i]);
        } else if i < e1 {
            assert(s.subrange(p1, e1)[i - p1] == a[i - p1]);
        } else if i < p2 {
            assert(s.subrange(e1, p2)[i - e1] == middle_1(k)[i - e1]);
        } else if i < e2 {
            assert(s.subrange(p2, e2)[i - p2] == b[i - p2]);
        } else if i < p3 {
            assert(s.subrange(e2, p3)[i - e2] == middle_2(k)[i - e2]);
        } else if i < e3 {
            assert(s.subrange(p3, e3)[i - p3] == c[i - p3]);
        } else {
            assert(s.subrange(e3, e3 + 1)[0] == 41u8);
        }
    }
}

/// Reads the numbers of a shape of kind `k` at the start of `s`.
#[verifier::rlimit(50)]
fn parse_fields(s: &Vec<u8>, k: ShapeKind) -> (r: Option<ShapeFields>)
    ensures
        r matches Some(f) ==> f.kind == k && starts_with_shape(s@, k, f.first@, f.second@, f.third@),
        r is None ==> !exists|a: Seq<u8>, b: Seq<u8>, c: Seq<u8>| starts_with_shape(s@, k, a, b, c),
{
    let n = s.len();
    let open = opening_bytes(k);
    let mid_1 = middle_1_bytes(k);
    let mid_2 = middle_2_bytes(k);
    let close: Vec<u8> = vec![41u8];
    assert(close@ =~= seq![41u8]);
    let ghost sv = s@;
    let ghost ok = exists|a: Seq<u8>, b: Seq<u8>, c: Seq<u8>| starts_with_shape(sv, k, a, b, c);
    let ghost (ga, gb, gc) = choose|a: Seq<u8>, b: Seq<u8>, c: Seq<u8>| starts_with_shape(sv, k, a, b, c);
    proof {
        if ok {
            lemma_text_parts(sv, k, ga, gb, gc);
        }
    }
    if !holds_at(s, 0, &open) {
        return None;
    }
    let p1 = open.len();
    let e1 = scan_number(s, p1);
    proof {
        if ok {
            lemma_number_run(sv, p1 as int, ga, e1 as int);
        }
    }
    if e1 == p1 || !holds_at(s, e1, &mid_1) {
        return None;
    }
    let p2 = e1 + mid_1.len();
    let e2 = scan_number(s, p2);
    proof {
        if ok {
            lemma_number_run(sv, p2 as int, gb, e2 as int);
        }
    }
    if e2 == p2 || !holds_at(s, e2, &mid_2) {
        return None;
    }
    let p3 = e2 + mid_2.len();
    let e3 = scan_number(s, p3);
    proof {
        if ok {
            lemma_number_run(sv, p3 as int, gc, e3 as int);
        }
    }
    if e3 == p3 || !holds_at(s, e3, &close) {
        return None;
    }
    let first = copy_range(s, p1, e1);
    let second = copy_range(s, p2, e2);
    let third = copy_range(s, p3, e3);
    proof {
        lemma_text_from_parts(
            sv,
            k,
            first@,
            second@,
            third@,
            p1 as int,
            e1 as int,
            p2 as int,
            e2 as int,
            p3 as int,
            e3 as int,
        );
    }
    Some(ShapeFields { kind: k, first, second, third })
}

/// The position of the first `(`, if any.
fn find_parenthesis(s: &Vec<u8>) -> (r: Option<usize>)
    ensures
        r is None <==> !s@.contains(40u8),
        r matches Some(p) ==> is_first_parenthesis(s@, p as int) && head(s@) == s@.take(p as int),
{
    let mut i: usize = 0;
    while i < s.len()
        invariant
            i <= s@.len(),
            forall|j: int| 0 <= j < i ==> s@[j] != 40u8,
        decreases s.len() - i,
    {
        if s[i] == 40u8 {
            assert(s@.contains(40u8));
            proof {
                assert(is_first_parenthesis(s@, i as int));
                let p = choose|p: int| is_first_parenthesis(s@, p);
                if p < i {
                    assert(s@[p] == 40u8);
                }
                if p > i {
                    assert(s@[i as int] == 40u8);
                }
            }
            return Some(i);
        }
        i = i + 1;
    }
    None
}

/// The text before position `p` is `name`.
fn head_is(s: &Vec<u8>, p: usize, name: &Vec<u8>) -> (r: bool)
    requires
        p <= s@.len(),
    ensures
        r == (s@.take(p as int) == name@),
{
    if p != name.len() {
        return false;
    }
    let r = holds_at(s, 0, name);
    assert(s@.take(p as int) =~= s@.subrange(0, p as int));
    r
}

/// Reads the text form of a line or a circle.
pub fn parse_shape_text(s: &Vec<u8>) -> (r: Result<ShapeFields, TextError>)
    ensures
        fields_view(r) == parsed(s@),
{
    let p = match find_parenthesis(s) {
        None => {
            return Err(TextError::NoParenthesis);
        },
        Some(p) => p,
    };
    let line: Vec<u8> = vec![76u8, 105, 110, 101];
    let circle: Vec<u8> = vec![67u8, 105, 114, 99, 108, 101];
    let ray: Vec<u8> = vec![82u8, 97, 121];
    let segment: Vec<u8> = vec![83u8, 101, 103, 109, 101, 110, 116];
    assert(line@ =~= line_name());
    assert(circle@ =~= circle_name());
    assert(ray@ =~= ray_name());
    assert(segment@ =~= segment_name());
    let is_line = head_is(s, p, &line);
    let is_circle = head_is(s, p, &circle);
    if is_line || is_circle {
        let k = if is_line {
            ShapeKind::Line
        } else {
            ShapeKind::Circle
        };
        proof {
            assert(line_name() != circle_name()) by {
                assert(line_name().len() != circle_name().len());
            }
        }
        match parse_fields(s, k) {
            Some(f) => {
                proof {
                    assert(has_shape(s@, k));
                    let g = chosen_fields(s@, k);
                    lemma_shape_unique(s@, k, f.first@, f.second@, f.third@, g.0, g.1, g.2);
                }
                Ok(f)
            },
            None => Err(TextError::WrongFormat),
        }
    } else if head_is(s, p, &ray) || head_is(s, p, &segment) {
        Err(TextError::Unsupported)
    } else {
        Err(TextError::WrongHead)
    }
}

} // verus!
