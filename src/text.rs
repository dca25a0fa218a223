//! Character-level helpers shared by the parsers: reading a string as a
//! sequence of characters, building strings back, and trimming whitespace.
use vstd::prelude::*;

verus! {

/// Rust's `char::is_whitespace`: the characters with the Unicode
/// `White_Space` property.
pub open spec fn is_ws(c: char) -> bool {
    ||| ('\u{9}' <= c && c <= '\u{d}')
    ||| c == ' '
    ||| c == '\u{85}'
    ||| c == '\u{a0}'
    ||| c == '\u{1680}'
    ||| ('\u{2000}' <= c && c <= '\u{200a}')
    ||| c == '\u{2028}'
    ||| c == '\u{2029}'
    ||| c == '\u{202f}'
    ||| c == '\u{205f}'
    ||| c == '\u{3000}'
}

pub fn char_is_ws(c: char) -> (r: bool)
    ensures
        r == is_ws(c),
{
    ('\u{9}' <= c && c <= '\u{d}') || c == ' ' || c == '\u{85}' || c == '\u{a0}' || c
        == '\u{1680}' || ('\u{2000}' <= c && c <= '\u{200a}') || c == '\u{2028}' || c
        == '\u{2029}' || c == '\u{202f}' || c == '\u{205f}' || c == '\u{3000}'
}

/// Number of leading whitespace characters of `s`.
pub open spec fn lead_ws(s: Seq<char>) -> nat
    decreases s.len(),
{
    if s.len() > 0 && is_ws(s[0]) {
        1 + lead_ws(s.drop_first())
    } else {
        0
    }
}

/// Number of trailing whitespace characters of `s`.
pub open spec fn trail_ws(s: Seq<char>) -> nat
    decreases s.len(),
{
    if s.len() > 0 && is_ws(s.last()) {
        1 + trail_ws(s.drop_last())
    } else {
        0
    }
}

/// `str::trim`: `s` without its leading and trailing whitespace.
pub open spec fn trimmed(s: Seq<char>) -> Seq<char> {
    let t = s.subrange(lead_ws(s) as int, s.len() as int);
    t.subrange(0, t.len() - trail_ws(t))
}

/// Relies on `String::push`: appends one character at the end.
#[verifier::external_body]
pub(crate) fn push_char(s: &mut String, c: char)
    ensures
        final(s)@ == old(s)@.push(c),
{
    s.push(c)
}

/// The characters of `s`, in order.
pub fn chars_of(s: &str) -> (r: Vec<char>)
    ensures
        r@ == s@,
{
    let mut r: Vec<char> = Vec::new();
    for c in it: s.chars()
        invariant
            it.seq() == s@,
            r@ == it.seq().take(it.index() as int),
    {
        r.push(c);
    }
    assert(r@ =~= s@);
    r
}

/// The string made of the characters `cs[from..to]`.
pub fn string_from(cs: &Vec<char>, from: usize, to: usize) -> (r: String)
    requires
        from <= to <= cs.len(),
    ensures
        r@ == cs@.subrange(from as int, to as int),
{
    let mut r = String::new();
    let mut i = from;
    while i < to
        invariant
            from <= i <= to <= cs.len(),
            r@ == cs@.subrange(from as int, i as int),
        decreases to - i,
    {
        push_char(&mut r, cs[i]);
        assert(cs@.subrange(from as int, i + 1) =~= cs@.subrange(from as int, i as int).push(
            cs@[i as int],
        ));
        i += 1;
    }
    r
}

/// Bounds `(start, end)` of `cs[from..to]` without its leading and trailing
/// whitespace.
pub fn trim_bounds(cs: &Vec<char>, from: usize, to: usize) -> (r: (usize, usize))
    requires
        from <= to <= cs.len(),
    ensures
        from <= r.0 <= r.1 <= to,
        cs@.subrange(r.0 as int, r.1 as int) == trimmed(cs@.subrange(from as int, to as int)),
{
    let ghost s = cs@.subrange(from as int, to as int);
    let mut a = from;
    while a < to && char_is_ws(cs[a])
        invariant
            from <= a <= to <= cs.len(),
            lead_ws(s) == (a - from) + lead_ws(cs@.subrange(a as int, to as int)),
        decreases to - a,
    {
        assert(cs@.subrange(a + 1, to as int) =~= cs@.subrange(a as int, to as int).drop_first());
        a += 1;
    }
    assert(lead_ws(cs@.subrange(a as int, to as int)) == 0);
    let ghost t = cs@.subrange(a as int, to as int);
    assert(t =~= s.subrange(lead_ws(s) as int, s.len() as int));
    let mut b = to;
    while b > a && char_is_ws(cs[b - 1])
        invariant
            from <= a <= b <= to <= cs.len(),
            t == cs@.subrange(a as int, to as int),
            trail_ws(t) == (to - b) + trail_ws(cs@.subrange(a as int, b as int)),
        decreases b - a,
    {
        assert(cs@.subrange(a as int, b - 1) =~= cs@.subrange(a as int, b as int).drop_last());
        b -= 1;
    }
    assert(trail_ws(cs@.subrange(a as int, b as int)) == 0);
    assert(cs@.subrange(a as int, b as int) =~= t.subrange(0, t.len() - trail_ws(t)));
    (a, b)
}

/// `s` with leading and trailing whitespace removed.
pub fn trim(s: &str) -> (r: String)
    ensures
        r@ == trimmed(s@),
{
    let cs = chars_of(s);
    let (a, b) = trim_bounds(&cs, 0, cs.len());
    assert(cs@.subrange(0, cs.len() as int) =~= s@);
    string_from(&cs, a, b)
}

/// Whether `s` is exactly the literal characters `lit`.
pub fn str_eq(s: &str, lit: &str) -> (r: bool)
    ensures
        r == (s@ == lit@),
{
    let a = chars_of(s);
    let b = chars_of(lit);
    assert(a@.subrange(0, a.len() as int) =~= a@);
    chars_eq(&a, 0, a.len(), &b)
}

/// Whether `a[from..to]` equals `b`.
pub fn chars_eq(a: &Vec<char>, from: usize, to: usize, b: &Vec<char>) -> (r: bool)
    requires
        from <= to <= a.len(),
    ensures
        r == (a@.subrange(from as int, to as int) == b@),
{
    if to - from != b.len() {
        return false;
    }
    let mut i: usize = 0;
    while i < b.len()
        invariant
            from <= to <= a.len(),
            to - from == b.len(),
            i <= b.len(),
            forall|j: int| 0 <= j < i ==> a@[from + j] == b@[j],
        decreases b.len() - i,
    {
        if a[from + i] != b[i] {
            return false;
        }
        i += 1;
    }
    assert(a@.subrange(from as int, to as int) =~= b@);
    true
}

/// The view of an optional string.
pub open spec fn str_opt(o: Option<String>) -> Option<Seq<char>> {
    match o {
        Some(s) => Some(s@),
        None => None,
    }
}

/// Number of leading spaces of `s`.
pub open spec fn indent(s: Seq<char>) -> nat
    decreases s.len(),
{
    if s.len() > 0 && s[0] == ' ' {
        1 + indent(s.drop_first())
    } else {
        0
    }
}

/// `s` without one pair of surrounding double quotes, where it has them.
pub open spec fn unquote(s: Seq<char>) -> Seq<char> {
    if s.len() >= 2 && s[0] == '"' && s.last() == '"' {
        s.subrange(1, s.len() - 1)
    } else {
        s
    }
}

/// The characters `cs[from..to]` as a vector.
pub fn sub_chars(cs: &Vec<char>, from: usize, to: usize) -> (r: Vec<char>)
    requires
        from <= to <= cs.len(),
    ensures
        r@ == cs@.subrange(from as int, to as int),
{
    let mut r: Vec<char> = Vec::new();
    let mut i = from;
    while i < to
        invariant
            from <= i <= to <= cs.len(),
            r@ == cs@.subrange(from as int, i as int),
        decreases to - i,
    {
        r.push(cs[i]);
        assert(cs@.subrange(from as int, i + 1) =~= cs@.subrange(from as int, i as int).push(
            cs@[i as int],
        ));
        i += 1;
    }
    r
}

/// Number of leading spaces of `cs[from..to]`.
pub fn leading_spaces(cs: &Vec<char>, from: usize, to: usize) -> (r: usize)
    requires
        from <= to <= cs.len(),
    ensures
        r == indent(cs@.subrange(from as int, to as int)),
        from + r <= to,
{
    let mut a = from;
    while a < to && cs[a] == ' '
        invariant
            from <= a <= to <= cs.len(),
            indent(cs@.subrange(from as int, to as int)) == (a - from) + indent(
                cs@.subrange(a as int, to as int),
            ),
        decreases to - a,
    {
        assert(cs@.subrange(a + 1, to as int) =~= cs@.subrange(a as int, to as int).drop_first());
        a += 1;
    }
    a - from
}

/// Bounds of `unquote(cs[from..to])`.
pub fn unquote_bounds(cs: &Vec<char>, from: usize, to: usize) -> (r: (usize, usize))
    requires
        from <= to <= cs.len(),
    ensures
        from <= r.0 <= r.1 <= to,
        cs@.subrange(r.0 as int, r.1 as int) == unquote(cs@.subrange(from as int, to as int)),
{
    if to - from >= 2 && cs[from] == '"' && cs[to - 1] == '"' {
        assert(cs@.subrange(from + 1, to - 1) =~= cs@.subrange(from as int, to as int).subrange(
            1,
            to - from - 1,
        ));
        (from + 1, to - 1)
    } else {
        (from, to)
    }
}

/// The first position of `c` in `cs[from..to]`, counted from `from`.
pub fn find_char(cs: &Vec<char>, from: usize, to: usize, c: char) -> (r: Option<usize>)
    requires
        from <= to <= cs.len(),
    ensures
        match r {
            Some(i) => from + i < to && first_pos(cs@.subrange(from as int, to as int), c, i as int),
            None => forall|j: int| from <= j < to ==> cs@[j] != c,
        },
{
    let mut e = from;
    while e < to && cs[e] != c
        invariant
            from <= e <= to <= cs.len(),
            forall|q: int| from <= q < e ==> cs@[q] != c,
        decreases to - e,
    {
        e += 1;
    }
    if e == to {
        None
    } else {
        Some(e - from)
    }
}

/// Whether `i` is the first position of `c` in `s`.
pub open spec fn first_pos(s: Seq<char>, c: char, i: int) -> bool {
    0 <= i < s.len() && s[i] == c && forall|j: int| 0 <= j < i ==> s[j] != c
}

} // verus!
