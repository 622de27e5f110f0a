use vstd::prelude::*;

verus! {

/// ASCII whitespace as `u8::is_ascii_whitespace` defines it: space, tab,
/// line feed, form feed and carriage return.
pub open spec fn is_ascii_ws(c: u8) -> bool {
    c == 0x20 || c == 0x09 || c == 0x0A || c == 0x0C || c == 0x0D
}

fn ascii_ws(c: u8) -> (r: bool)
    ensures
        r == is_ascii_ws(c),
{
    c == 0x20 || c == 0x09 || c == 0x0A || c == 0x0C || c == 0x0D
}

/// The maximal runs of non-whitespace bytes of `s`, in order.
pub open spec fn split_ws(s: Seq<u8>) -> Seq<Seq<u8>>
    decreases s.len(),
{
    if s.len() == 0 {
        Seq::empty()
    } else {
        let prev = split_ws(s.drop_last());
        let c = s.last();
        if is_ascii_ws(c) {
            prev
        } else if s.len() == 1 || is_ascii_ws(s[s.len() - 2]) {
            prev.push(seq![c])
        } else {
            prev.update(prev.len() - 1, prev.last().push(c))
        }
    }
}

proof fn lemma_split_ws_nonempty(s: Seq<u8>)
    requires
        s.len() > 0,
        !is_ascii_ws(s.last()),
    ensures
        split_ws(s).len() > 0,
    decreases s.len(),
{
    if s.len() > 1 && !is_ascii_ws(s[s.len() - 2]) {
        assert(s.drop_last().last() == s[s.len() - 2]);
        lemma_split_ws_nonempty(s.drop_last());
    }
}

/// Splits `s[start..end]` at ASCII whitespace.
fn split_ascii_ws(s: &[u8], start: usize, end: usize) -> (toks: Vec<Vec<u8>>)
    requires
        start <= end <= s@.len(),
    ensures
        toks.deep_view() == split_ws(s@.subrange(start as int, end as int)),
{
    let mut toks: Vec<Vec<u8>> = Vec::new();
    let mut i = start;
    assert(s@.subrange(start as int, start as int) =~= Seq::<u8>::empty());
    while i < end
        invariant
            start <= i <= end <= s@.len(),
            toks.deep_view() == split_ws(s@.subrange(start as int, i as int)),
        decreases end - i,
    {
        let c = s[i];
        let ghost prefix = s@.subrange(start as int, i as int);
        let ghost next = s@.subrange(start as int, i + 1);
        assert(next.drop_last() =~= prefix);
        assert(next.last() == c);
        if ascii_ws(c) {
        } else if i == start || ascii_ws(s[i - 1]) {
            let mut t: Vec<u8> = Vec::new();
            t.push(c);
            assert(t@ =~= seq![c]);
            assert(t.deep_view() =~= seq![c]);
            let ghost before = toks@;
            toks.push(t);
            assert(toks@ == before.push(t));
            assert(toks.deep_view() =~= split_ws(prefix).push(seq![c])) by {
                assert forall|k: int| 0 <= k < before.len() implies toks.deep_view()[k] == split_ws(prefix)[k] by {
                    assert(toks@[k] == before[k]);
                }
            }
        } else {
            assert(prefix.last() == s@[i - 1]);
            proof {
                lemma_split_ws_nonempty(prefix);
            }
            let ghost before = toks@;
            let ghost bdv = toks.deep_view();
            let mut t = toks.pop().unwrap();
            assert(t@ == bdv.last());
            t.push(c);
            toks.push(t);
            assert(toks@ == before.update(before.len() - 1, t));
            assert(toks.deep_view() =~= bdv.update(bdv.len() - 1, bdv.last().push(c))) by {
                assert forall|k: int| 0 <= k < before.len() - 1 implies toks.deep_view()[k] == bdv[k] by {
                    assert(toks@[k] == before[k]);
                }
                assert(t.deep_view() =~= t@);
            }
        }
        i += 1;
    }
    toks
}

/// Offset of the first `c` in `s`, or `s.len()` when there is none.
pub open spec fn find_byte(s: Seq<u8>, c: u8) -> nat
    decreases s.len(),
{
    if s.len() == 0 {
        0
    } else if s[0] == c {
        0
    } else {
        1 + find_byte(s.drop_first(), c)
    }
}

/// The first `c` in `s[from..to]`, as an offset into `s`, or `to`.
fn find_byte_in(s: &[u8], from: usize, to: usize, c: u8) -> (j: usize)
    requires
        from <= to <= s@.len(),
    ensures
        j == from + find_byte(s@.subrange(from as int, to as int), c),
        from <= j <= to,
{
    let mut j = from;
    while j < to && s[j] != c
        invariant
            from <= j <= to <= s@.len(),
            find_byte(s@.subrange(from as int, to as int), c) == (j - from) + find_byte(
                s@.subrange(j as int, to as int),
                c,
            ),
        decreases to - j,
    {
        assert(s@.subrange(j as int, to as int).drop_first() =~= s@.subrange(j + 1, to as int));
        j += 1;
    }
    if j < to {
        assert(s@.subrange(j as int, to as int)[0] == c);
    } else {
        assert(s@.subrange(j as int, to as int).len() == 0);
    }
    j
}

/// The lines of `t` as `str::lines` gives them: split at line feeds, with no
/// empty line after a final line feed. (A carriage return before a line feed
/// is whitespace, so it does not change any line's tokens.)
pub open spec fn lines(t: Seq<u8>) -> Seq<Seq<u8>>
    decreases t.len(),
{
    if t.len() == 0 {
        Seq::empty()
    } else {
        let j = find_byte(t, 0x0A);
        if j < t.len() {
            seq![t.take(j as int)] + lines(t.skip(j + 1 as int))
        } else {
            seq![t]
        }
    }
}


pub open spec fn is_digit(c: u8) -> bool {
    0x30 <= c <= 0x39
}

pub open spec fn all_digits(s: Seq<u8>) -> bool {
    forall|i: int| 0 <= i < s.len() ==> is_digit(#[trigger] s[i])
}

/// Decimal value of a string of digits.
pub open spec fn digits_value(s: Seq<u8>) -> nat
    decreases s.len(),
{
    if s.len() == 0 {
        0
    } else {
        digits_value(s.drop_last()) * 10 + (s.last() - 0x30) as nat
    }
}

/// `s` with one leading `+` or `-` removed.
pub open spec fn strip_sign(s: Seq<u8>) -> Seq<u8> {
    if s.len() > 0 && (s[0] == 0x2B || s[0] == 0x2D) {
        s.drop_first()
    } else {
        s
    }
}

/// The digits part of an unsigned number: `s` without one leading `+`.
pub open spec fn unsigned_digits(s: Seq<u8>) -> Seq<u8> {
    if s.len() > 0 && s[0] == 0x2B {
        s.drop_first()
    } else {
        s
    }
}

/// What `u32::from_str` gives: an optional `+`, then one or more decimal
/// digits whose value fits in a `u32`.
pub open spec fn spec_parse_u32(s: Seq<u8>) -> Option<u32> {
    let d = unsigned_digits(s);
    if d.len() > 0 && all_digits(d) && digits_value(d) <= u32::MAX {
        Some(digits_value(d) as u32)
    } else {
        None
    }
}

/// `u32::from_str` refuses `s` as too large: reading the digits in order,
/// the value passes `u32::MAX` before any byte that is not a digit, that is,
/// some prefix of the digits is all digits and too large.
pub open spec fn u32_overflows(s: Seq<u8>) -> bool {
    let d = unsigned_digits(s);
    exists|k: int| 0 < k <= d.len() && all_digits(#[trigger] d.take(k)) && digits_value(d.take(k)) > u32::MAX
}

/// The error with which an index that does not parse is refused.
pub open spec fn index_error(s: Seq<u8>) -> ObjError {
    if u32_overflows(s) {
        ObjError::IndexTooLarge
    } else {
        ObjError::InvalidIndex
    }
}

fn parse_u32_in(s: &[u8], a: usize, b: usize) -> (r: Result<u32, ObjError>)
    requires
        a <= b <= s@.len(),
    ensures
        match r {
            Ok(v) => spec_parse_u32(s@.subrange(a as int, b as int)) == Some(v),
            Err(e) => spec_parse_u32(s@.subrange(a as int, b as int)) is None && e == index_error(
                s@.subrange(a as int, b as int),
            ),
        },
{
    let ghost w = s@.subrange(a as int, b as int);
    let start: usize = if a < b && s[a] == 0x2B {
        a + 1
    } else {
        a
    };
    let ghost d = unsigned_digits(w);
    assert(d =~= s@.subrange(start as int, b as int));
    if start == b {
        assert(!u32_overflows(w));
        return Err(ObjError::InvalidIndex);
    }
    let mut v: u64 = 0;
    let mut i = start;
    assert(s@.subrange(start as int, start as int) =~= Seq::<u8>::empty());
    while i < b
        invariant
            a <= start < b <= s@.len(),
            start <= i <= b,
            w == s@.subrange(a as int, b as int),
            d == unsigned_digits(w),
            d =~= s@.subrange(start as int, b as int),
            all_digits(s@.subrange(start as int, i as int)),
            v == digits_value(s@.subrange(start as int, i as int)),
            v <= u32::MAX,
            forall|k: int| 0 < k <= i - start ==> digits_value(#[trigger] d.take(k)) <= u32::MAX,
        decreases b - i,
    {
        let c = s[i];
        if c < 0x30 || c > 0x39 {
            assert(!all_digits(d)) by {
                assert(d[i - start] == c);
            }
            assert(!u32_overflows(w)) by {
                if u32_overflows(w) {
                    let k = choose|k: int|
                        0 < k <= d.len() && all_digits(#[trigger] d.take(k)) && digits_value(d.take(k)) > u32::MAX;
                    if k > i - start {
                        assert(d.take(k)[i - start] == c);
                    }
                }
            }
            return Err(ObjError::InvalidIndex);
        }
        let ghost pre = s@.subrange(start as int, i as int);
        let ghost nxt = s@.subrange(start as int, i + 1);
        assert(nxt.drop_last() =~= pre);
        assert(nxt.last() == c);
        assert(digits_value(nxt) == digits_value(pre) * 10 + (c - 0x30));
        assert(d.take(i + 1 - start) =~= nxt);
        v = v * 10 + (c - 0x30) as u64;
        if v > 0xFFFF_FFFF {
            assert(all_digits(d.take(i + 1 - start)));
            assert(u32_overflows(w));
            assert(!all_digits(d) || digits_value(d) > u32::MAX) by {
                if all_digits(d) {
                    lemma_digits_prefix_le(d, i + 1 - start);
                }
            }
            return Err(ObjError::IndexTooLarge);
        }
        i += 1;
    }
    assert(s@.subrange(start as int, b as int) =~= d);
    Ok(v as u32)
}

/// A prefix of a digit string has no larger value than the whole string.
proof fn lemma_digits_prefix_le(d: Seq<u8>, k: int)
    requires
        all_digits(d),
        0 <= k <= d.len(),
    ensures
        digits_value(d.take(k)) <= digits_value(d),
    decreases d.len() - k,
{
    if k < d.len() {
        lemma_digits_prefix_le(d, k + 1);
        assert(d.take(k + 1).drop_last() =~= d.take(k));
    } else {
        assert(d.take(k) =~= d);
    }
}

/// ASCII lower case of a byte.
pub open spec fn to_lower(c: u8) -> u8 {
    if 0x41 <= c <= 0x5A {
        (c + 0x20) as u8
    } else {
        c
    }
}

/// `s` equals the lower-case word `w` ignoring ASCII case.
pub open spec fn eq_ignore_case(s: Seq<u8>, w: Seq<u8>) -> bool {
    s.len() == w.len() && forall|i: int| 0 <= i < s.len() ==> to_lower(#[trigger] s[i]) == w[i]
}

/// Offset of the first `e` or `E` in `s`, or `s.len()`.
pub open spec fn find_exp(s: Seq<u8>) -> nat
    decreases s.len(),
{
    if s.len() == 0 {
        0
    } else if s[0] == 0x65 || s[0] == 0x45 {
        0
    } else {
        1 + find_exp(s.drop_first())
    }
}

/// `Digit+ | Digit+ '.' Digit* | Digit* '.' Digit+`
pub open spec fn mantissa_ok(m: Seq<u8>) -> bool {
    let d = find_byte(m, 0x2E);
    let ip = m.take(d as int);
    if d < m.len() {
        let fp = m.skip(d + 1 as int);
        all_digits(ip) && all_digits(fp) && ip.len() + fp.len() > 0
    } else {
        all_digits(ip) && ip.len() > 0
    }
}

/// Empty, or `e` (either case), an optional sign and one or more digits.
pub open spec fn exponent_ok(e: Seq<u8>) -> bool {
    e.len() == 0 || ({
        let x = strip_sign(e.drop_first());
        x.len() > 0 && all_digits(x)
    })
}

/// The syntax that `f32::from_str` accepts: an optional sign, then `inf`,
/// `infinity` or `nan` in any case, or a decimal number with an optional
/// exponent.
pub open spec fn float_syntax(t: Seq<u8>) -> bool {
    let u = strip_sign(t);
    ||| eq_ignore_case(u, seq![0x69u8, 0x6E, 0x66])
    ||| eq_ignore_case(u, seq![0x69u8, 0x6E, 0x66, 0x69, 0x6E, 0x69, 0x74, 0x79])
    ||| eq_ignore_case(u, seq![0x6Eu8, 0x61, 0x6E])
    ||| (mantissa_ok(u.take(find_exp(u) as int)) && exponent_ok(u.skip(find_exp(u) as int)))
}


fn all_digits_in(s: &[u8], a: usize, b: usize) -> (r: bool)
    requires
        a <= b <= s@.len(),
    ensures
        r == all_digits(s@.subrange(a as int, b as int)),
{
    let mut i = a;
    while i < b
        invariant
            a <= i <= b <= s@.len(),
            all_digits(s@.subrange(a as int, i as int)),
        decreases b - i,
    {
        if s[i] < 0x30 || s[i] > 0x39 {
            assert(s@.subrange(a as int, b as int)[i - a] == s@[i as int]);
            return false;
        }
        assert forall|k: int| 0 <= k < i + 1 - a implies is_digit(#[trigger] s@.subrange(a as int, i + 1)[k]) by {
            if k < i - a {
                assert(s@.subrange(a as int, i + 1)[k] == s@.subrange(a as int, i as int)[k]);
            }
        }
        i += 1;
    }
    true
}

fn lower(c: u8) -> (r: u8)
    ensures
        r == to_lower(c),
{
    if 0x41 <= c && c <= 0x5A {
        c + 0x20
    } else {
        c
    }
}

fn eq_ignore_case_in(s: &[u8], a: usize, b: usize, w: &[u8]) -> (r: bool)
    requires
        a <= b <= s@.len(),
    ensures
        r == eq_ignore_case(s@.subrange(a as int, b as int), w@),
{
    if b - a != w.len() {
        return false;
    }
    let mut i: usize = 0;
    while i < w.len()
        invariant
            a <= b <= s@.len(),
            b - a == w@.len(),
            i <= w@.len(),
            forall|k: int| 0 <= k < i ==> to_lower(#[trigger] s@.subrange(a as int, b as int)[k]) == w@[k],
        decreases w@.len() - i,
    {
        assert(s@.subrange(a as int, b as int)[i as int] == s@[a + i]);
        if lower(s[a + i]) != w[i] {
            return false;
        }
        i += 1;
    }
    true
}

/// The first `e` or `E` in `s[from..]`, as an offset into `s`, or `s.len()`.
fn find_exp_from(s: &[u8], from: usize) -> (j: usize)
    requires
        from <= s@.len(),
    ensures
        j == from + find_exp(s@.skip(from as int)),
        from <= j <= s@.len(),
{
    let mut j = from;
    while j < s.len() && s[j] != 0x65 && s[j] != 0x45
        invariant
            from <= j <= s@.len(),
            find_exp(s@.skip(from as int)) == (j - from) + find_exp(s@.skip(j as int)),
        decreases s@.len() - j,
    {
        assert(s@.skip(j as int).drop_first() =~= s@.skip(j + 1));
        j += 1;
    }
    if j < s.len() {
        assert(s@.skip(j as int)[0] == s@[j as int]);
    } else {
        assert(s@.skip(j as int).len() == 0);
    }
    j
}

fn mantissa_ok_in(t: &[u8], a: usize, k: usize) -> (r: bool)
    requires
        a <= k <= t@.len(),
    ensures
        r == mantissa_ok(t@.subrange(a as int, k as int)),
{
    let d = find_byte_in(t, a, k, 0x2E);
    let ghost m = t@.subrange(a as int, k as int);
    assert(m.take(d - a) =~= t@.subrange(a as int, d as int));
    if d < k {
        assert(m.skip(d - a + 1) =~= t@.subrange(d + 1, k as int));
        let ip = all_digits_in(t, a, d);
        let fp = all_digits_in(t, d + 1, k);
        ip && fp && (d - a) + (k - (d + 1)) > 0
    } else {
        all_digits_in(t, a, d) && d - a > 0
    }
}

fn exponent_ok_in(t: &[u8], k: usize) -> (r: bool)
    requires
        k <= t@.len(),
    ensures
        r == exponent_ok(t@.subrange(k as int, t@.len() as int)),
{
    let n = t.len();
    let ghost e = t@.subrange(k as int, n as int);
    if k == n {
        true
    } else {
        let x: usize = if k + 1 < n && (t[k + 1] == 0x2B || t[k + 1] == 0x2D) {
            k + 2
        } else {
            k + 1
        };
        assert(strip_sign(e.drop_first()) =~= t@.subrange(x as int, n as int));
        x < n && all_digits_in(t, x, n)
    }
}

/// Tells whether `f32::from_str` accepts the token `t`.
fn is_float_token(t: &[u8]) -> (r: bool)
    ensures
        r == float_syntax(t@),
{
    let n = t.len();
    let a: usize = if n > 0 && (t[0] == 0x2B || t[0] == 0x2D) {
        1
    } else {
        0
    };
    let ghost u = strip_sign(t@);
    assert(u =~= t@.subrange(a as int, n as int));
    if eq_ignore_case_in(t, a, n, &[0x69u8, 0x6E, 0x66]) || eq_ignore_case_in(
        t,
        a,
        n,
        &[0x69u8, 0x6E, 0x66, 0x69, 0x6E, 0x69, 0x74, 0x79],
    ) || eq_ignore_case_in(t, a, n, &[0x6Eu8, 0x61, 0x6E]) {
        return true;
    }
    let k = find_exp_from(t, a);
    assert(t@.skip(a as int) =~= u);
    assert(u.take(find_exp(u) as int) =~= t@.subrange(a as int, k as int));
    assert(u.skip(find_exp(u) as int) =~= t@.subrange(k as int, n as int));
    mantissa_ok_in(t, a, k) && exponent_ok_in(t, k)
}

/// Part `k` (counting from 0) of a face field split at `/`, when the field
/// has that many parts.
pub open spec fn slash_part(f: Seq<u8>, k: nat) -> Option<Seq<u8>>
    decreases k,
{
    let j = find_byte(f, 0x2F);
    if k == 0 {
        Some(f.take(j as int))
    } else if j < f.len() {
        slash_part(f.skip(j + 1 as int), (k - 1) as nat)
    } else {
        None
    }
}

/// A missing or empty part is no index; any other part must parse as a
/// `u32`, else it is refused with the parse error.
pub open spec fn face_component(part: Option<Seq<u8>>) -> Result<Option<u32>, ObjError> {
    match part {
        None => Ok(None),
        Some(p) => if p.len() == 0 {
            Ok(None)
        } else {
            match spec_parse_u32(p) {
                Some(v) => Ok(Some(v)),
                None => Err(index_error(p)),
            }
        },
    }
}

/// The position, texture and normal indices of a face field `p/t/n` (one
/// based, as written), or the error of the first part that is not a number.
pub open spec fn spec_face_vertex(f: Seq<u8>) -> Result<(Option<u32>, Option<u32>, Option<u32>), ObjError> {
    match face_component(slash_part(f, 0)) {
        Err(e) => Err(e),
        Ok(p) => match face_component(slash_part(f, 1)) {
            Err(e) => Err(e),
            Ok(t) => match face_component(slash_part(f, 2)) {
                Err(e) => Err(e),
                Ok(n) => Ok((p, t, n)),
            },
        },
    }
}

/// Errors of OBJ parsing. The last four are the inputs on which reading
/// stops the program: an attribute line with too few numbers followed by
/// another line, a zero index, a position index past the positions read so
/// far, more vertices than a `u32` index can count.
#[derive(Copy, Clone, Debug, PartialEq, Eq, Structural)]
pub enum ObjError {
    InvalidNumber,
    InvalidIndex,
    IndexTooLarge,
    FaceTooSmall,
    MissingPosition,
    ShortAttribute,
    ZeroIndex,
    PositionOutOfRange,
    TooManyVertices,
}

/// Component of a field in `f[a..b]`: `Ok(None)` when the part is empty or
/// absent.
fn face_component_in(f: &[u8], a: usize, b: usize, present: bool) -> (r: Result<Option<u32>, ObjError>)
    requires
        a <= b <= f@.len(),
    ensures
        r == face_component(if present { Some(f@.subrange(a as int, b as int)) } else { None }),
{
    if !present || a == b {
        Ok(None)
    } else {
        match parse_u32_in(f, a, b) {
            Ok(v) => Ok(Some(v)),
            Err(e) => Err(e),
        }
    }
}

/// Splits a face field `p/t/n` into its indices; missing or empty parts give
/// `None`.
pub fn parse_face_vertex(field: &[u8]) -> (r: Result<(Option<u32>, Option<u32>, Option<u32>), ObjError>)
    ensures
        r == spec_face_vertex(field@),
{
    let n = field.len();
    let ghost f = field@;
    let j0 = find_byte_in(field, 0, n, 0x2F);
    assert(field@.subrange(0, n as int) =~= f);
    assert(f.take(j0 as int) =~= field@.subrange(0, j0 as int));
    let has1 = j0 < n;
    let s1: usize = if has1 { j0 + 1 } else { n };
    let j1 = find_byte_in(field, s1, n, 0x2F);
    let has2 = has1 && j1 < n;
    let s2: usize = if has2 { j1 + 1 } else { n };
    let j2 = find_byte_in(field, s2, n, 0x2F);
    proof {
        if has1 {
            let f1 = f.skip(j0 + 1 as int);
            assert(f1 =~= field@.subrange(s1 as int, n as int));
            assert(f1.take(j1 - s1) =~= field@.subrange(s1 as int, j1 as int));
            assert(find_byte(f, 0x2F) == j0);
            assert(find_byte(f1, 0x2F) == j1 - s1);
            assert(slash_part(f1, 0) == Some(f1.take(j1 - s1)));
            assert(slash_part(f, 1) == Some(field@.subrange(s1 as int, j1 as int)));
            if has2 {
                let f2 = f1.skip(j1 - s1 + 1);
                assert(f2 =~= field@.subrange(s2 as int, n as int));
                assert(f2.take(j2 - s2) =~= field@.subrange(s2 as int, j2 as int));
                assert(find_byte(f2, 0x2F) == j2 - s2);
                assert(slash_part(f2, 0) == Some(f2.take(j2 - s2)));
                assert(slash_part(f1, 1) == Some(field@.subrange(s2 as int, j2 as int)));
            } else {
                assert(slash_part(f1, 1) == None::<Seq<u8>>);
            }
        }
    }
    let p = face_component_in(field, 0, j0, true)?;
    let t = face_component_in(field, s1, j1, has1)?;
    let nm = face_component_in(field, s2, j2, has2)?;
    Ok((p, t, nm))
}


/// What the last line started: nothing, or a `v`, `vn`, `vt` or `f` line.
#[derive(Copy, Clone, Debug, PartialEq, Eq, Structural)]
pub enum LineKind {
    NewLine,
    Vertex,
    Normal,
    Texture,
    Face,
}

/// A vertex of the output mesh: the position record it takes, and the
/// texture and normal records, `None` where a default is used.
#[derive(Copy, Clone, Debug, PartialEq, Eq, Structural)]
pub struct VertexRef {
    pub position: usize,
    pub tex_coord: Option<usize>,
    pub normal: Option<usize>,
}

/// A face corner: zero-based position, texture and normal indices.
pub type Corner = (Option<nat>, Option<nat>, Option<nat>);

/// Parser state after some lines.
pub struct ObjState {
    pub kind: LineKind,
    /// Number tokens of the pending attribute line.
    pub buff: Seq<Seq<u8>>,
    /// Attribute records read so far (their number tokens).
    pub positions: Seq<Seq<Seq<u8>>>,
    pub tex_coords: Seq<Seq<Seq<u8>>>,
    pub normals: Seq<Seq<Seq<u8>>>,
    /// The (position, texture, normal) key of each output vertex.
    pub keys: Seq<(nat, nat, nat)>,
    pub vertices: Seq<VertexRef>,
    pub indices: Seq<u32>,
}

/// The parsed mesh.
pub struct ObjMesh {
    pub positions: Seq<Seq<Seq<u8>>>,
    pub tex_coords: Seq<Seq<Seq<u8>>>,
    pub normals: Seq<Seq<Seq<u8>>>,
    pub vertices: Seq<VertexRef>,
    pub indices: Seq<u32>,
}

pub open spec fn initial_obj_state() -> ObjState {
    ObjState {
        kind: LineKind::NewLine,
        buff: Seq::empty(),
        positions: Seq::empty(),
        tex_coords: Seq::empty(),
        normals: Seq::empty(),
        keys: Seq::empty(),
        vertices: Seq::empty(),
        indices: Seq::empty(),
    }
}

/// Stores the pending attribute line, which must have brought enough numbers.
pub open spec fn flush(s: ObjState) -> Result<ObjState, ObjError> {
    match s.kind {
        LineKind::Vertex => if s.buff.len() < 3 {
            Err(ObjError::ShortAttribute)
        } else {
            Ok(ObjState { positions: s.positions.push(s.buff.take(3)), buff: Seq::empty(), ..s })
        },
        LineKind::Normal => if s.buff.len() < 3 {
            Err(ObjError::ShortAttribute)
        } else {
            Ok(ObjState { normals: s.normals.push(s.buff.take(3)), buff: Seq::empty(), ..s })
        },
        LineKind::Texture => if s.buff.len() < 2 {
            Err(ObjError::ShortAttribute)
        } else {
            Ok(ObjState { tex_coords: s.tex_coords.push(s.buff.take(2)), buff: Seq::empty(), ..s })
        },
        _ => Ok(s),
    }
}

/// After the last line, a pending attribute line is stored only when it
/// brought exactly the numbers it needs.
pub open spec fn finish(s: ObjState) -> ObjMesh {
    let positions = if s.kind == LineKind::Vertex && s.buff.len() == 3 {
        s.positions.push(s.buff)
    } else {
        s.positions
    };
    let normals = if s.kind == LineKind::Normal && s.buff.len() == 3 {
        s.normals.push(s.buff)
    } else {
        s.normals
    };
    let tex_coords = if s.kind == LineKind::Texture && s.buff.len() == 2 {
        s.tex_coords.push(s.buff)
    } else {
        s.tex_coords
    };
    ObjMesh { positions, tex_coords, normals, vertices: s.vertices, indices: s.indices }
}

/// The line kind a first token names.
pub open spec fn keyword(t: Seq<u8>) -> Option<LineKind> {
    if t == seq![0x76u8] {
        Some(LineKind::Vertex)
    } else if t == seq![0x76u8, 0x6E] {
        Some(LineKind::Normal)
    } else if t == seq![0x76u8, 0x74] {
        Some(LineKind::Texture)
    } else if t == seq![0x66u8] {
        Some(LineKind::Face)
    } else {
        None
    }
}

/// The corners of a face line's fields, or the first field's error.
pub open spec fn face_fields(fields: Seq<Seq<u8>>) -> Result<Seq<Corner>, ObjError>
    decreases fields.len(),
{
    if fields.len() == 0 {
        Ok(Seq::empty())
    } else {
        match face_fields(fields.drop_last()) {
            Err(e) => Err(e),
            Ok(cs) => match spec_face_vertex(fields.last()) {
                Err(e) => Err(e),
                Ok((p, t, n)) => if p == Some(0u32) || t == Some(0u32) || n == Some(0u32) {
                    Err(ObjError::ZeroIndex)
                } else {
                    Ok(
                        cs.push(
                            (
                                match p {
                                    Some(i) => Some((i - 1) as nat),
                                    None => None,
                                },
                                match t {
                                    Some(i) => Some((i - 1) as nat),
                                    None => None,
                                },
                                match n {
                                    Some(i) => Some((i - 1) as nat),
                                    None => None,
                                },
                            ),
                        ),
                    )
                },
            },
        }
    }
}

/// The triangle fan of a polygon: triangles (0, i, i + 1) for `1 <= i < m`.
pub open spec fn fan(cs: Seq<Corner>, m: nat) -> Seq<Corner>
    decreases m,
{
    if m <= 1 {
        Seq::empty()
    } else {
        fan(cs, (m - 1) as nat) + seq![cs[0], cs[m - 1], cs[m as int]]
    }
}

/// The output vertex of a key that is already known.
pub open spec fn key_index(keys: Seq<(nat, nat, nat)>, k: (nat, nat, nat)) -> int {
    choose|i: int| 0 <= i < keys.len() && keys[i] == k
}

/// One face corner: a known key repeats its vertex's index; a new key makes
/// a new vertex, with the next index.
pub open spec fn corner_step(s: ObjState, c: Corner) -> Result<ObjState, ObjError> {
    match c.0 {
        None => Err(ObjError::MissingPosition),
        Some(p) => {
            let t = match c.1 {
                Some(i) => i,
                None => 0,
            };
            let n = match c.2 {
                Some(i) => i,
                None => 0,
            };
            let key = (p, t, n);
            if s.keys.contains(key) {
                Ok(ObjState { indices: s.indices.push(key_index(s.keys, key) as u32), ..s })
            } else if p >= s.positions.len() {
                Err(ObjError::PositionOutOfRange)
            } else if s.keys.len() >= u32::MAX {
                Err(ObjError::TooManyVertices)
            } else {
                let v = VertexRef {
                    position: p as usize,
                    tex_coord: if t < s.tex_coords.len() {
                        Some(t as usize)
                    } else {
                        None
                    },
                    normal: if n < s.normals.len() {
                        Some(n as usize)
                    } else {
                        None
                    },
                };
                Ok(
                    ObjState {
                        keys: s.keys.push(key),
                        vertices: s.vertices.push(v),
                        indices: s.indices.push(s.keys.len() as u32),
                        ..s
                    },
                )
            }
        },
    }
}

pub open spec fn corners_step(s: ObjState, cs: Seq<Corner>) -> Result<ObjState, ObjError>
    decreases cs.len(),
{
    if cs.len() == 0 {
        Ok(s)
    } else {
        match corners_step(s, cs.drop_last()) {
            Err(e) => Err(e),
            Ok(s1) => corner_step(s1, cs.last()),
        }
    }
}

pub open spec fn face_step(s: ObjState, fields: Seq<Seq<u8>>) -> Result<ObjState, ObjError> {
    match face_fields(fields) {
        Err(e) => Err(e),
        Ok(cs) => if cs.len() < 3 {
            Err(ObjError::FaceTooSmall)
        } else {
            corners_step(s, fan(cs, (cs.len() - 1) as nat))
        },
    }
}

/// One line, given as its tokens.
pub open spec fn line_step(s: ObjState, toks: Seq<Seq<u8>>) -> Result<ObjState, ObjError> {
    match flush(s) {
        Err(e) => Err(e),
        Ok(s1) => {
            let s2 = ObjState { kind: LineKind::NewLine, ..s1 };
            if toks.len() == 0 || (toks[0].len() > 0 && toks[0][0] == 0x23) {
                Ok(s2)
            } else {
                match keyword(toks[0]) {
                    None => Ok(s2),
                    Some(LineKind::Face) => face_step(ObjState { kind: LineKind::Face, ..s2 }, toks.drop_first()),
                    Some(k) => if forall|i: int| 1 <= i < toks.len() ==> float_syntax(#[trigger] toks[i]) {
                        Ok(ObjState { kind: k, buff: s2.buff + toks.drop_first(), ..s2 })
                    } else {
                        Err(ObjError::InvalidNumber)
                    },
                }
            }
        },
    }
}

pub open spec fn lines_step(ls: Seq<Seq<u8>>) -> Result<ObjState, ObjError>
    decreases ls.len(),
{
    if ls.len() == 0 {
        Ok(initial_obj_state())
    } else {
        match lines_step(ls.drop_last()) {
            Err(e) => Err(e),
            Ok(s) => line_step(s, split_ws(ls.last())),
        }
    }
}

/// The mesh an OBJ text describes, or the error that stops the reading.
pub open spec fn spec_obj(text: Seq<u8>) -> Result<ObjMesh, ObjError> {
    match lines_step(lines(text)) {
        Err(e) => Err(e),
        Ok(s) => Ok(finish(s)),
    }
}


/// A parsed OBJ mesh: the attribute records (their number tokens, as text),
/// the output vertices and the triangle list of vertex indices.
pub struct ObjLayout {
    pub positions: Vec<Vec<Vec<u8>>>,
    pub tex_coords: Vec<Vec<Vec<u8>>>,
    pub normals: Vec<Vec<Vec<u8>>>,
    pub vertices: Vec<VertexRef>,
    pub indices: Vec<u32>,
}

impl View for ObjLayout {
    type V = ObjMesh;

    open spec fn view(&self) -> ObjMesh {
        ObjMesh {
            positions: self.positions.deep_view(),
            tex_coords: self.tex_coords.deep_view(),
            normals: self.normals.deep_view(),
            vertices: self.vertices@,
            indices: self.indices@,
        }
    }
}

/// Key number `i` is listed in the bucket of its position.
spec fn bucket_has_key(buckets: Seq<Vec<(usize, usize, u32)>>, keys: Seq<(nat, nat, nat)>, k: (nat, nat, nat), i: int) -> bool {
    exists|j: int|
        0 <= j < buckets[k.0 as int]@.len() && #[trigger] buckets[k.0 as int]@[j] == (k.1 as usize, k.2 as usize, i as u32)
}

/// Parser state. Keys already seen are found through `buckets`: bucket `p`
/// lists `(texture, normal, vertex)` for each key with position `p`.
struct ObjBuilder {
    kind: LineKind,
    buff: Vec<Vec<u8>>,
    positions: Vec<Vec<Vec<u8>>>,
    tex_coords: Vec<Vec<Vec<u8>>>,
    normals: Vec<Vec<Vec<u8>>>,
    buckets: Vec<Vec<(usize, usize, u32)>>,
    vertices: Vec<VertexRef>,
    indices: Vec<u32>,
    keys: Ghost<Seq<(nat, nat, nat)>>,
}

impl ObjBuilder {
    spec fn state(&self) -> ObjState {
        ObjState {
            kind: self.kind,
            buff: self.buff.deep_view(),
            positions: self.positions.deep_view(),
            tex_coords: self.tex_coords.deep_view(),
            normals: self.normals.deep_view(),
            keys: self.keys@,
            vertices: self.vertices@,
            indices: self.indices@,
        }
    }

    spec fn wf(&self) -> bool {
        let keys = self.keys@;
        &&& self.buckets@.len() == self.positions@.len()
        &&& self.vertices@.len() == keys.len()
        &&& keys.len() <= u32::MAX
        &&& forall|i: int, j: int| 0 <= i < j < keys.len() ==> keys[i] != keys[j]
        &&& forall|i: int|
            0 <= i < keys.len() ==> {
                &&& (#[trigger] keys[i]).0 < self.positions@.len()
                &&& keys[i].1 < u32::MAX
                &&& keys[i].2 < u32::MAX
            }
        &&& forall|p: int, j: int|
            0 <= p < self.buckets@.len() && 0 <= j < self.buckets@[p]@.len() ==> {
                let e = #[trigger] self.buckets@[p]@[j];
                &&& e.2 < keys.len()
                &&& keys[e.2 as int] == (p as nat, e.0 as nat, e.1 as nat)
            }
        &&& forall|i: int| 0 <= i < keys.len() ==> bucket_has_key(self.buckets@, keys, #[trigger] keys[i], i)
    }

    fn new() -> (b: ObjBuilder)
        ensures
            b.wf(),
            b.state() == initial_obj_state(),
    {
        let b = ObjBuilder {
            kind: LineKind::NewLine,
            buff: Vec::new(),
            positions: Vec::new(),
            tex_coords: Vec::new(),
            normals: Vec::new(),
            buckets: Vec::new(),
            vertices: Vec::new(),
            indices: Vec::new(),
            keys: Ghost(Seq::empty()),
        };
        assert(b.state().buff =~= Seq::<Seq<u8>>::empty());
        assert(b.state().positions =~= Seq::<Seq<Seq<u8>>>::empty());
        assert(b.state().tex_coords =~= Seq::<Seq<Seq<u8>>>::empty());
        assert(b.state().normals =~= Seq::<Seq<Seq<u8>>>::empty());
        b
    }

    /// Takes the first `width` tokens of the pending line as a record.
    fn take_record(&mut self, width: usize) -> (rec: Vec<Vec<u8>>)
        requires
            old(self).buff@.len() >= width,
        ensures
            rec.deep_view() == old(self).buff.deep_view().take(width as int),
            final(self).buff@.len() == 0,
            final(self).kind == old(self).kind,
            final(self).positions == old(self).positions,
            final(self).tex_coords == old(self).tex_coords,
            final(self).normals == old(self).normals,
            final(self).buckets == old(self).buckets,
            final(self).vertices == old(self).vertices,
            final(self).indices == old(self).indices,
            final(self).keys == old(self).keys,
    {
        let ghost before = self.buff.deep_view();
        let mut rec: Vec<Vec<u8>> = Vec::new();
        std::mem::swap(&mut rec, &mut self.buff);
        rec.truncate(width);
        assert(rec.deep_view() =~= before.take(width as int));
        rec
    }

    fn flush(&mut self) -> (r: Result<(), ObjError>)
        requires
            old(self).wf(),
        ensures
            final(self).wf(),
            match r {
                Ok(()) => flush(old(self).state()) == Ok::<ObjState, ObjError>(final(self).state()),
                Err(e) => flush(old(self).state()) == Err::<ObjState, ObjError>(e),
            },
    {
        match self.kind {
            LineKind::Vertex => {
                if self.buff.len() < 3 {
                    return Err(ObjError::ShortAttribute);
                }
                let ghost old_buckets = self.buckets@;
                let ghost old_positions = self.positions.deep_view();
                let rec = self.take_record(3);
                self.positions.push(rec);
                self.buckets.push(Vec::new());
                assert(self.positions.deep_view() =~= old_positions.push(rec.deep_view()));
                assert(self.buff.deep_view() =~= Seq::<Seq<u8>>::empty());
                assert forall|p: int, j: int|
                    0 <= p < self.buckets@.len() && 0 <= j < self.buckets@[p]@.len() implies {
                        let e = #[trigger] self.buckets@[p]@[j];
                        &&& e.2 < self.keys@.len()
                        &&& self.keys@[e.2 as int] == (p as nat, e.0 as nat, e.1 as nat)
                    } by {
                    assert(p < old_buckets.len());
                    assert(self.buckets@[p] == old_buckets[p]);
                }
                assert forall|i: int| 0 <= i < self.keys@.len() implies bucket_has_key(
                    self.buckets@,
                    self.keys@,
                    #[trigger] self.keys@[i],
                    i,
                ) by {
                    let k = self.keys@[i];
                    assert(bucket_has_key(old_buckets, self.keys@, k, i));
                    let j = choose|j: int|
                        0 <= j < old_buckets[k.0 as int]@.len() && #[trigger] old_buckets[k.0 as int]@[j] == (
                            k.1 as usize,
                            k.2 as usize,
                            i as u32,
                        );
                    assert(self.buckets@[k.0 as int] == old_buckets[k.0 as int]);
                    assert(self.buckets@[k.0 as int]@[j] == (k.1 as usize, k.2 as usize, i as u32));
                }
                Ok(())
            },
            LineKind::Normal => {
                if self.buff.len() < 3 {
                    return Err(ObjError::ShortAttribute);
                }
                let ghost old_normals = self.normals.deep_view();
                let rec = self.take_record(3);
                self.normals.push(rec);
                assert(self.normals.deep_view() =~= old_normals.push(rec.deep_view()));
                assert(self.buff.deep_view() =~= Seq::<Seq<u8>>::empty());
                Ok(())
            },
            LineKind::Texture => {
                if self.buff.len() < 2 {
                    return Err(ObjError::ShortAttribute);
                }
                let ghost old_tex = self.tex_coords.deep_view();
                let rec = self.take_record(2);
                self.tex_coords.push(rec);
                assert(self.tex_coords.deep_view() =~= old_tex.push(rec.deep_view()));
                assert(self.buff.deep_view() =~= Seq::<Seq<u8>>::empty());
                Ok(())
            },
            _ => Ok(()),
        }
    }

    #[verifier::loop_isolation(false)]
    #[verifier::spinoff_prover]
    fn corner(&mut self, c: (Option<u32>, Option<u32>, Option<u32>)) -> (r: Result<(), ObjError>)
        requires
            old(self).wf(),
            c.1 matches Some(i) ==> i < u32::MAX,
            c.2 matches Some(i) ==> i < u32::MAX,
        ensures
            final(self).wf(),
            final(self).kind == old(self).kind,
            final(self).buff == old(self).buff,
            match r {
                Ok(()) => corner_step(old(self).state(), corner_view(c)) == Ok::<ObjState, ObjError>(final(self).state()),
                Err(e) => corner_step(old(self).state(), corner_view(c)) == Err::<ObjState, ObjError>(e),
            },
    {
        let ghost s = self.state();
        let p: usize = match c.0 {
            None => return Err(ObjError::MissingPosition),
            Some(p) => p as usize,
        };
        let t: usize = match c.1 {
            Some(i) => i as usize,
            None => 0,
        };
        let n: usize = match c.2 {
            Some(i) => i as usize,
            None => 0,
        };
        let ghost key: (nat, nat, nat) = (p as nat, t as nat, n as nat);
        if p >= self.positions.len() {
            assert(!s.keys.contains(key)) by {
                if s.keys.contains(key) {
                    let i = choose|i: int| 0 <= i < s.keys.len() && s.keys[i] == key;
                    assert(s.keys[i].0 < self.positions@.len());
                }
            }
            return Err(ObjError::PositionOutOfRange);
        }
        let blen = self.buckets[p].len();
        let mut j: usize = 0;
        while j < blen
            invariant
                self.wf(),
                *self == *old(self),
                self.state() == s,
                p < self.buckets@.len(),
                blen == self.buckets@[p as int]@.len(),
                j <= blen,
                key == (p as nat, t as nat, n as nat),
                forall|jj: int|
                    0 <= jj < j ==> !((#[trigger] self.buckets@[p as int]@[jj]).0 == t && self.buckets@[p as int]@[jj].1 == n),
            decreases blen - j,
        {
            let e = self.buckets[p][j];
            if e.0 == t && e.1 == n {
                let idx = e.2;
                proof {
                    assert(self.buckets@[p as int]@[j as int] == e);
                    assert(s.keys[idx as int] == key);
                    assert(s.keys.contains(key));
                    let ki = key_index(s.keys, key);
                    assert(0 <= ki < s.keys.len() && s.keys[ki] == key);
                    if ki != idx {
                        if ki < idx {
                            assert(s.keys[ki] != s.keys[idx as int]);
                        } else {
                            assert(s.keys[idx as int] != s.keys[ki]);
                        }
                    }
                }
                let ghost old_indices = self.indices@;
                self.indices.push(idx);
                assert(self.state() == (ObjState { indices: s.indices.push(key_index(s.keys, key) as u32), ..s }));
                return Ok(());
            }
            j += 1;
        }
        assert(!s.keys.contains(key)) by {
            if s.keys.contains(key) {
                let i = choose|i: int| 0 <= i < s.keys.len() && s.keys[i] == key;
                assert(bucket_has_key(self.buckets@, s.keys, s.keys[i], i));
                let jj = choose|jj: int|
                    0 <= jj < self.buckets@[p as int]@.len() && #[trigger] self.buckets@[p as int]@[jj] == (
                        t,
                        n,
                        i as u32,
                    );
                assert(self.buckets@[p as int]@[jj].0 == t && self.buckets@[p as int]@[jj].1 == n);
            }
        }
        if self.vertices.len() >= 0xFFFF_FFFF {
            return Err(ObjError::TooManyVertices);
        }
        let v = VertexRef {
            position: p,
            tex_coord: if t < self.tex_coords.len() {
                Some(t)
            } else {
                None
            },
            normal: if n < self.normals.len() {
                Some(n)
            } else {
                None
            },
        };
        let idx = self.vertices.len() as u32;
        let ghost old_buckets = self.buckets@;
        let ghost old_keys = self.keys@;
        self.vertices.push(v);
        self.indices.push(idx);
        let mut b: Vec<(usize, usize, u32)> = Vec::new();
        self.buckets.set_and_swap(p, &mut b);
        let ghost old_b = b@;
        assert(old_b == old_buckets[p as int]@);
        b.push((t, n, idx));
        self.buckets.set_and_swap(p, &mut b);
        proof {
            self.keys@ = old_keys.push(key);
        }
        assert(self.buckets@ == old_buckets.update(p as int, self.buckets@[p as int]));
        assert(self.buckets@[p as int]@ == old_b.push((t, n, idx)));
        assert forall|i: int| 0 <= i < self.keys@.len() implies bucket_has_key(
            self.buckets@,
            self.keys@,
            #[trigger] self.keys@[i],
            i,
        ) by {
            let k = self.keys@[i];
            if i == old_keys.len() {
                assert(k == key);
                assert(idx as int == i);
                assert(self.buckets@[p as int]@[old_b.len() as int] == (t, n, idx));
                assert(self.buckets@[k.0 as int]@[old_b.len() as int] == (k.1 as usize, k.2 as usize, i as u32));
            } else {
                assert(k == old_keys[i]);
                assert(bucket_has_key(old_buckets, old_keys, k, i));
                let jj = choose|jj: int|
                    0 <= jj < old_buckets[k.0 as int]@.len() && #[trigger] old_buckets[k.0 as int]@[jj] == (
                        k.1 as usize,
                        k.2 as usize,
                        i as u32,
                    );
                if k.0 == p {
                    assert(self.buckets@[p as int]@[jj] == old_b[jj]);
                } else {
                    assert(self.buckets@[k.0 as int] == old_buckets[k.0 as int]);
                }
                assert(self.buckets@[k.0 as int]@[jj] == (k.1 as usize, k.2 as usize, i as u32));
            }
        }
        assert forall|q: int, jj: int|
            0 <= q < self.buckets@.len() && 0 <= jj < self.buckets@[q]@.len() implies {
                let e = #[trigger] self.buckets@[q]@[jj];
                &&& e.2 < self.keys@.len()
                &&& self.keys@[e.2 as int] == (q as nat, e.0 as nat, e.1 as nat)
            } by {
            if q == p && jj == old_b.len() {
            } else if q == p {
                assert(self.buckets@[q]@[jj] == old_b[jj]);
                assert(old_buckets[q]@[jj] == old_b[jj]);
            } else {
                assert(self.buckets@[q] == old_buckets[q]);
            }
        }
        assert forall|a: int, bb: int| 0 <= a < bb < self.keys@.len() implies self.keys@[a] != self.keys@[bb] by {
            if bb == old_keys.len() {
                assert(old_keys.contains(old_keys[a]));
            }
        }
        assert(self.state() == (ObjState {
            keys: s.keys.push(key),
            vertices: s.vertices.push(v),
            indices: s.indices.push(s.keys.len() as u32),
            ..s
        }));
        Ok(())
    }

    fn fan_corner(
        &mut self,
        c: (Option<u32>, Option<u32>, Option<u32>),
        Ghost(s0): Ghost<ObjState>,
        Ghost(full): Ghost<Seq<Corner>>,
        Ghost(k): Ghost<int>,
    ) -> (r: Result<(), ObjError>)
        requires
            old(self).wf(),
            c.1 matches Some(i) ==> i < u32::MAX,
            c.2 matches Some(i) ==> i < u32::MAX,
            0 <= k < full.len(),
            full[k] == corner_view(c),
            corners_step(s0, full.take(k)) == Ok::<ObjState, ObjError>(old(self).state()),
        ensures
            final(self).wf(),
            final(self).kind == old(self).kind,
            final(self).buff == old(self).buff,
            r is Ok ==> corners_step(s0, full.take(k + 1)) == Ok::<ObjState, ObjError>(final(self).state()),
            r matches Err(e) ==> corners_step(s0, full) == Err::<ObjState, ObjError>(e),
    {
        let r = self.corner(c);
        proof {
            assert(full.take(k + 1).drop_last() =~= full.take(k));
            if let Err(e) = r {
                lemma_corners_err(s0, full, k + 1);
            }
        }
        r
    }

    /// A face line; `toks[0]` is its keyword.
    fn face(&mut self, toks: &Vec<Vec<u8>>) -> (r: Result<(), ObjError>)
        requires
            old(self).wf(),
            toks@.len() >= 1,
        ensures
            final(self).wf(),
            final(self).kind == old(self).kind,
            final(self).buff == old(self).buff,
            match r {
                Ok(()) => face_step(old(self).state(), toks.deep_view().drop_first()) == Ok::<ObjState, ObjError>(final(self).state()),
                Err(e) => face_step(old(self).state(), toks.deep_view().drop_first()) == Err::<ObjState, ObjError>(e),
            },
    {
        let ghost fields = toks.deep_view().drop_first();
        let ghost s0 = self.state();
        let mut cs: Vec<(Option<u32>, Option<u32>, Option<u32>)> = Vec::new();
        let mut i: usize = 1;
        assert(fields.take(0) =~= Seq::<Seq<u8>>::empty());
        assert(cs@.map_values(|c| corner_view(c)) =~= Seq::<Corner>::empty());
        while i < toks.len()
            invariant
                1 <= i <= toks@.len(),
                *self == *old(self),
                self.wf(),
                s0 == old(self).state(),
                fields == toks.deep_view().drop_first(),
                face_fields(fields.take(i - 1)) == Ok::<Seq<Corner>, ObjError>(cs@.map_values(|c| corner_view(c))),
                forall|j: int|
                    0 <= j < cs@.len() ==> ((#[trigger] cs@[j]).1 matches Some(x) ==> x < u32::MAX) && (cs@[j].2 matches Some(
                        x,
                    ) ==> x < u32::MAX),
            decreases toks@.len() - i,
        {
            let ghost pre = fields.take(i - 1);
            let ghost nxt = fields.take(i as int);
            assert(nxt.drop_last() =~= pre);
            assert(nxt.last() == toks@[i as int]@) by {
                assert(toks.deep_view()[i as int] == toks@[i as int].deep_view());
                assert(toks@[i as int].deep_view() =~= toks@[i as int]@);
            }
            let (p, t, n) = match parse_face_vertex(toks[i].as_slice()) {
                Ok(v) => v,
                Err(e) => {
                    proof {
                        lemma_face_fields_err(fields, i as int);
                    }
                    return Err(e);
                },
            };
            if p == Some(0u32) || t == Some(0u32) || n == Some(0u32) {
                proof {
                    lemma_face_fields_err(fields, i as int);
                }
                return Err(ObjError::ZeroIndex);
            }
            let c = (
                match p {
                    Some(x) => Some(x - 1),
                    None => None,
                },
                match t {
                    Some(x) => Some(x - 1),
                    None => None,
                },
                match n {
                    Some(x) => Some(x - 1),
                    None => None,
                },
            );
            let ghost before = cs@;
            cs.push(c);
            assert(cs@.map_values(|c| corner_view(c)) =~= before.map_values(|c| corner_view(c)).push(corner_view(c)));
            i += 1;
        }
        assert(fields.take(toks@.len() - 1) =~= fields);
        let ghost csv = cs@.map_values(|c| corner_view(c));
        if cs.len() < 3 {
            return Err(ObjError::FaceTooSmall);
        }
        let m = cs.len() - 1;
        let ghost full = fan(csv, m as nat);
        proof {
            lemma_fan_shape(csv, m as nat);
            assert(full.take(0) =~= Seq::<Corner>::empty());
        }
        let mut tri: usize = 1;
        while tri < m
            invariant
                self.wf(),
                self.kind == old(self).kind,
                self.buff == old(self).buff,
                1 <= tri <= m,
                m == cs@.len() - 1,
                s0 == old(self).state(),
                fields == toks.deep_view().drop_first(),
                face_fields(fields) == Ok::<Seq<Corner>, ObjError>(csv),
                csv == cs@.map_values(|c| corner_view(c)),
                full == fan(csv, m as nat),
                full.len() == 3 * (m - 1),
                forall|j: int| 1 <= j < m ==> full[#[trigger] fan_slot(j, 0)] == csv[0],
                forall|j: int| 1 <= j < m ==> full[#[trigger] fan_slot(j, 1)] == csv[j],
                forall|j: int| 1 <= j < m ==> full[#[trigger] fan_slot(j, 2)] == csv[j + 1],
                forall|j: int|
                    0 <= j < cs@.len() ==> ((#[trigger] cs@[j]).1 matches Some(x) ==> x < u32::MAX) && (cs@[j].2 matches Some(
                        x,
                    ) ==> x < u32::MAX),
                corners_step(s0, full.take(3 * (tri - 1))) == Ok::<ObjState, ObjError>(self.state()),
            decreases m - tri,
        {
            let ghost k: int = 3 * (tri - 1);
            let c0 = cs[0];
            let c1 = cs[tri];
            let c2 = cs[tri + 1];
            assert(full[fan_slot(tri as int, 0)] == corner_view(c0));
            self.fan_corner(c0, Ghost(s0), Ghost(full), Ghost(k))?;
            assert(full[fan_slot(tri as int, 1)] == corner_view(c1));
            self.fan_corner(c1, Ghost(s0), Ghost(full), Ghost(k + 1))?;
            assert(full[fan_slot(tri as int, 2)] == corner_view(c2));
            self.fan_corner(c2, Ghost(s0), Ghost(full), Ghost(k + 2))?;
            tri += 1;
        }
        assert(full.take(3 * (m - 1)) =~= full);
        Ok(())
    }

    /// One line, given as its tokens.
    #[verifier::loop_isolation(false)]
    fn line(&mut self, toks: Vec<Vec<u8>>) -> (r: Result<(), ObjError>)
        requires
            old(self).wf(),
        ensures
            final(self).wf(),
            match r {
                Ok(()) => line_step(old(self).state(), toks.deep_view()) == Ok::<ObjState, ObjError>(final(self).state()),
                Err(e) => line_step(old(self).state(), toks.deep_view()) == Err::<ObjState, ObjError>(e),
            },
    {
        let ghost tv = toks.deep_view();
        self.flush()?;
        self.kind = LineKind::NewLine;
        if toks.len() == 0 {
            return Ok(());
        }
        assert(tv[0] == toks@[0].deep_view());
        assert(toks@[0].deep_view() =~= toks@[0]@);
        if toks[0].len() > 0 && toks[0][0] == 0x23 {
            return Ok(());
        }
        let kw = keyword_of(&toks[0]);
        match kw {
            None => Ok(()),
            Some(LineKind::Face) => {
                self.kind = LineKind::Face;
                self.face(&toks)
            },
            Some(k) => {
                let mut i: usize = 1;
                while i < toks.len()
                    invariant
                        1 <= i <= toks@.len(),
                        tv == toks.deep_view(),
                        forall|j: int| 1 <= j < i ==> float_syntax(#[trigger] tv[j]),
                    decreases toks@.len() - i,
                {
                    assert(tv[i as int] == toks@[i as int].deep_view());
                    assert(toks@[i as int].deep_view() =~= toks@[i as int]@);
                    if !is_float_token(toks[i].as_slice()) {
                        return Err(ObjError::InvalidNumber);
                    }
                    i += 1;
                }
                self.kind = k;
                let mut rest = toks;
                rest.remove(0);
                let ghost old_buff = self.buff.deep_view();
                let ghost old_bv = self.buff@;
                let ghost rest_v = rest@;
                self.buff.append(&mut rest);
                assert(self.buff@ == old_bv + rest_v);
                assert(self.buff.deep_view() =~= old_buff + tv.drop_first()) by {
                    assert forall|j: int| 0 <= j < self.buff@.len() implies self.buff.deep_view()[j] == (old_buff
                        + tv.drop_first())[j] by {
                        if j >= old_bv.len() {
                            assert(self.buff@[j] == rest_v[j - old_bv.len()]);
                        }
                    }
                }
                Ok(())
            },
        }
    }

    fn finish(self) -> (l: ObjLayout)
        ensures
            l@ == finish(self.state()),
    {
        let mut positions = self.positions;
        let mut tex_coords = self.tex_coords;
        let mut normals = self.normals;
        let ghost pv = positions.deep_view();
        let ghost tv = tex_coords.deep_view();
        let ghost nv = normals.deep_view();
        let ghost bv = self.buff.deep_view();
        match self.kind {
            LineKind::Vertex => if self.buff.len() == 3 {
                positions.push(self.buff);
                assert(positions.deep_view() =~= pv.push(bv));
            },
            LineKind::Normal => if self.buff.len() == 3 {
                normals.push(self.buff);
                assert(normals.deep_view() =~= nv.push(bv));
            },
            LineKind::Texture => if self.buff.len() == 2 {
                tex_coords.push(self.buff);
                assert(tex_coords.deep_view() =~= tv.push(bv));
            },
            _ => {},
        }
        ObjLayout { positions, tex_coords, normals, vertices: self.vertices, indices: self.indices }
    }
}

/// A corner with its indices widened to `nat`.
pub open spec fn corner_view(c: (Option<u32>, Option<u32>, Option<u32>)) -> Corner {
    (
        match c.0 {
            Some(i) => Some(i as nat),
            None => None,
        },
        match c.1 {
            Some(i) => Some(i as nat),
            None => None,
        },
        match c.2 {
            Some(i) => Some(i as nat),
            None => None,
        },
    )
}


proof fn lemma_corners_err(s: ObjState, a: Seq<Corner>, k: int)
    requires
        0 <= k <= a.len(),
        corners_step(s, a.take(k)) is Err,
    ensures
        corners_step(s, a) == corners_step(s, a.take(k)),
    decreases a.len() - k,
{
    if k < a.len() {
        assert(a.take(k + 1).drop_last() =~= a.take(k));
        lemma_corners_err(s, a, k + 1);
    } else {
        assert(a.take(k) =~= a);
    }
}

proof fn lemma_face_fields_err(fields: Seq<Seq<u8>>, k: int)
    requires
        0 <= k <= fields.len(),
        face_fields(fields.take(k)) is Err,
    ensures
        face_fields(fields) == face_fields(fields.take(k)),
    decreases fields.len() - k,
{
    if k < fields.len() {
        assert(fields.take(k + 1).drop_last() =~= fields.take(k));
        lemma_face_fields_err(fields, k + 1);
    } else {
        assert(fields.take(k) =~= fields);
    }
}

/// Place of corner `k` of fan triangle `j`.
pub open spec fn fan_slot(j: int, k: int) -> int {
    3 * (j - 1) + k
}

/// The fan of an `m + 1`-gon has `3 * (m - 1)` corners: triangle `j` is
/// corners 0, `j` and `j + 1`.
pub proof fn lemma_fan_shape(cs: Seq<Corner>, m: nat)
    requires
        m >= 1,
        m < cs.len(),
    ensures
        fan(cs, m).len() == 3 * (m - 1),
        forall|j: int| 1 <= j < m ==> fan(cs, m)[#[trigger] fan_slot(j, 0)] == cs[0],
        forall|j: int| 1 <= j < m ==> fan(cs, m)[#[trigger] fan_slot(j, 1)] == cs[j],
        forall|j: int| 1 <= j < m ==> fan(cs, m)[#[trigger] fan_slot(j, 2)] == cs[j + 1],
    decreases m,
{
    if m > 1 {
        lemma_fan_shape(cs, (m - 1) as nat);
    }
}


fn keyword_of(t: &Vec<u8>) -> (r: Option<LineKind>)
    ensures
        r == keyword(t@),
{
    if t.len() == 1 && t[0] == 0x76 {
        assert(t@ =~= seq![0x76u8]);
        Some(LineKind::Vertex)
    } else if t.len() == 2 && t[0] == 0x76 && t[1] == 0x6E {
        assert(t@ =~= seq![0x76u8, 0x6E]);
        Some(LineKind::Normal)
    } else if t.len() == 2 && t[0] == 0x76 && t[1] == 0x74 {
        assert(t@ =~= seq![0x76u8, 0x74]);
        Some(LineKind::Texture)
    } else if t.len() == 1 && t[0] == 0x66 {
        assert(t@ =~= seq![0x66u8]);
        Some(LineKind::Face)
    } else {
        assert(t@ != seq![0x76u8]) by {
            if t@ == seq![0x76u8] {
                assert(t@.len() == 1 && t@[0] == 0x76);
            }
        }
        assert(t@ != seq![0x76u8, 0x6E]) by {
            if t@ == seq![0x76u8, 0x6E] {
                assert(t@.len() == 2 && t@[0] == 0x76 && t@[1] == 0x6E);
            }
        }
        assert(t@ != seq![0x76u8, 0x74]) by {
            if t@ == seq![0x76u8, 0x74] {
                assert(t@.len() == 2 && t@[0] == 0x76 && t@[1] == 0x74);
            }
        }
        assert(t@ != seq![0x66u8]) by {
            if t@ == seq![0x66u8] {
                assert(t@.len() == 1 && t@[0] == 0x66);
            }
        }
        None
    }
}

proof fn lemma_lines_err(ls: Seq<Seq<u8>>, k: int)
    requires
        0 <= k <= ls.len(),
        lines_step(ls.take(k)) is Err,
    ensures
        lines_step(ls) == lines_step(ls.take(k)),
    decreases ls.len() - k,
{
    if k < ls.len() {
        assert(ls.take(k + 1).drop_last() =~= ls.take(k));
        lemma_lines_err(ls, k + 1);
    } else {
        assert(ls.take(k) =~= ls);
    }
}

/// Parses the text of an OBJ file: `v`, `vn` and `vt` lines give attribute
/// records, `f` lines give polygons that are split into triangle fans; each
/// distinct (position, texture, normal) index triple becomes one output
/// vertex, numbered in order of first use.
pub fn parse_obj(text: &[u8]) -> (r: Result<ObjLayout, ObjError>)
    ensures
        match r {
            Ok(l) => spec_obj(text@) == Ok::<ObjMesh, ObjError>(l@),
            Err(e) => spec_obj(text@) == Err::<ObjMesh, ObjError>(e),
        },
        r matches Ok(l) ==> mesh_wf(l@),
{
    proof {
        lemma_parsed_mesh_wf(text@);
    }
    let mut b = ObjBuilder::new();
    let n = text.len();
    let mut i: usize = 0;
    let ghost all = lines(text@);
    let ghost mut k: int = 0;
    assert(text@.skip(0) =~= text@);
    assert(all.take(0) =~= Seq::<Seq<u8>>::empty());
    while i < n
        invariant
            b.wf(),
            n == text@.len(),
            i <= n,
            all == lines(text@),
            0 <= k <= all.len(),
            lines(text@.skip(i as int)) == all.skip(k),
            lines_step(all.take(k)) == Ok::<ObjState, ObjError>(b.state()),
        decreases n - i,
    {
        let j = find_byte_in(text, i, n, 0x0A);
        let toks = split_ascii_ws(text, i, j);
        let ghost u = text@.skip(i as int);
        proof {
            assert(u =~= text@.subrange(i as int, n as int));
            assert(find_byte(u, 0x0A) == j - i);
            assert(u.take(j - i) =~= text@.subrange(i as int, j as int));
            if j < n {
                assert(u.skip(j - i + 1) =~= text@.skip(j + 1));
            }
            assert(lines(u)[0] == text@.subrange(i as int, j as int)) by {
                if j >= n {
                    assert(u =~= text@.subrange(i as int, j as int));
                }
            }
            assert(lines(u).len() > 0);
            assert(all.skip(k).len() > 0);
            assert(k < all.len());
            assert(all[k] == lines(u)[0]) by {
                assert(all.skip(k)[0] == all[k]);
            }
            assert(all.take(k + 1).drop_last() =~= all.take(k));
        }
        let ghost before = b.state();
        match b.line(toks) {
            Ok(()) => {},
            Err(e) => {
                proof {
                    lemma_lines_err(all, k + 1);
                }
                return Err(e);
            },
        }
        proof {
            if j < n {
                assert(lines(text@.skip(j + 1)) =~= all.skip(k + 1)) by {
                    assert(lines(u) == seq![u.take(j - i)] + lines(u.skip(j - i + 1)));
                    assert(all.skip(k + 1) =~= all.skip(k).drop_first());
                    assert(lines(u).drop_first() =~= lines(u.skip(j - i + 1)));
                }
            } else {
                assert(text@.skip(n as int) =~= Seq::<u8>::empty());
                assert(all.skip(k) =~= seq![lines(u)[0]]);
                assert(all.skip(k + 1) =~= Seq::<Seq<u8>>::empty());
            }
            k = k + 1;
        }
        i = if j < n {
            j + 1
        } else {
            n
        };
    }
    proof {
        assert(text@.skip(n as int) =~= Seq::<u8>::empty());
        assert(all.skip(k).len() == 0);
        assert(all.take(k) =~= all);
    }
    Ok(b.finish())
}


/// Every index names an output vertex, the index list is a list of whole
/// triangles, and every vertex names records that were read.
pub open spec fn mesh_wf(m: ObjMesh) -> bool {
    &&& m.indices.len() % 3 == 0
    &&& forall|i: int| 0 <= i < m.indices.len() ==> (#[trigger] m.indices[i]) < m.vertices.len()
    &&& forall|i: int| 0 <= i < m.vertices.len() ==> vertex_refs_ok(#[trigger] m.vertices[i], m.positions.len(), m.tex_coords.len(), m.normals.len())
}

pub open spec fn vertex_refs_ok(v: VertexRef, np: nat, nt: nat, nn: nat) -> bool {
    &&& v.position < np
    &&& (v.tex_coord matches Some(t) ==> t < nt)
    &&& (v.normal matches Some(n) ==> n < nn)
}

/// No key belongs to two output vertices.
pub open spec fn keys_distinct(keys: Seq<(nat, nat, nat)>) -> bool {
    forall|i: int, j: int| 0 <= i < j < keys.len() ==> keys[i] != keys[j]
}

/// A vertex takes its position record from its key's position index, and
/// its texture and normal records, where it has them, from its key's texture
/// and normal indices (as `usize` record numbers).
pub open spec fn vertex_matches_key(v: VertexRef, k: (nat, nat, nat)) -> bool {
    &&& v.position == k.0 as usize
    &&& (v.tex_coord matches Some(x) ==> x == k.1 as usize)
    &&& (v.normal matches Some(x) ==> x == k.2 as usize)
}

spec fn state_refs_ok(s: ObjState) -> bool {
    &&& s.keys.len() == s.vertices.len()
    &&& forall|i: int| 0 <= i < s.vertices.len() ==> vertex_matches_key(#[trigger] s.vertices[i], s.keys[i])
    &&& keys_distinct(s.keys)
    &&& forall|i: int| 0 <= i < s.indices.len() ==> (#[trigger] s.indices[i]) < s.vertices.len()
    &&& forall|i: int|
        0 <= i < s.vertices.len() ==> vertex_refs_ok(#[trigger] s.vertices[i], s.positions.len(), s.tex_coords.len(), s.normals.len())
}

spec fn state_inv(s: ObjState) -> bool {
    state_refs_ok(s) && s.indices.len() % 3 == 0
}

proof fn lemma_corner_step_inv(s: ObjState, c: Corner)
    requires
        state_refs_ok(s),
    ensures
        corner_step(s, c) matches Ok(s1) ==> {
            &&& state_refs_ok(s1)
            &&& s1.indices.len() == s.indices.len() + 1
            &&& s1.positions == s.positions
            &&& s1.tex_coords == s.tex_coords
            &&& s1.normals == s.normals
            &&& s1.kind == s.kind
            &&& s1.buff == s.buff
        },
{
    if let Ok(s1) = corner_step(s, c) {
        let p = c.0.unwrap();
        let t = match c.1 {
            Some(i) => i,
            None => 0,
        };
        let n = match c.2 {
            Some(i) => i,
            None => 0,
        };
        let key = (p, t, n);
        if s.keys.contains(key) {
            let ki = key_index(s.keys, key);
            assert(0 <= ki < s.keys.len());
            assert forall|i: int| 0 <= i < s1.indices.len() implies (#[trigger] s1.indices[i]) < s1.vertices.len() by {
                if i < s.indices.len() {
                    assert(s1.indices[i] == s.indices[i]);
                }
            }
        } else {
            assert forall|i: int| 0 <= i < s1.indices.len() implies (#[trigger] s1.indices[i]) < s1.vertices.len() by {
                if i < s.indices.len() {
                    assert(s1.indices[i] == s.indices[i]);
                }
            }
            assert forall|i: int| 0 <= i < s1.vertices.len() implies vertex_refs_ok(
                #[trigger] s1.vertices[i],
                s1.positions.len(),
                s1.tex_coords.len(),
                s1.normals.len(),
            ) by {
                if i < s.vertices.len() {
                    assert(s1.vertices[i] == s.vertices[i]);
                }
            }
            assert forall|i: int, j: int| 0 <= i < j < s1.keys.len() implies s1.keys[i] != s1.keys[j] by {
                if j == s.keys.len() {
                    assert(s.keys.contains(s.keys[i]));
                }
            }
            assert forall|i: int| 0 <= i < s1.vertices.len() implies vertex_matches_key(
                #[trigger] s1.vertices[i],
                s1.keys[i],
            ) by {
                if i < s.vertices.len() {
                    assert(s1.vertices[i] == s.vertices[i]);
                    assert(s1.keys[i] == s.keys[i]);
                }
            }
        }
    }
}

proof fn lemma_corners_step_inv(s: ObjState, cs: Seq<Corner>)
    requires
        state_refs_ok(s),
    ensures
        corners_step(s, cs) matches Ok(s1) ==> {
            &&& state_refs_ok(s1)
            &&& s1.indices.len() == s.indices.len() + cs.len()
            &&& s1.positions == s.positions
            &&& s1.tex_coords == s.tex_coords
            &&& s1.normals == s.normals
            &&& s1.kind == s.kind
            &&& s1.buff == s.buff
        },
    decreases cs.len(),
{
    if cs.len() > 0 {
        lemma_corners_step_inv(s, cs.drop_last());
        if let Ok(s0) = corners_step(s, cs.drop_last()) {
            lemma_corner_step_inv(s0, cs.last());
        }
    }
}

proof fn lemma_line_step_inv(s: ObjState, toks: Seq<Seq<u8>>)
    requires
        state_inv(s),
    ensures
        line_step(s, toks) matches Ok(s1) ==> state_inv(s1),
{
    if let Ok(s1) = flush(s) {
        assert(state_inv(s1)) by {
            assert forall|i: int| 0 <= i < s1.vertices.len() implies vertex_refs_ok(
                #[trigger] s1.vertices[i],
                s1.positions.len(),
                s1.tex_coords.len(),
                s1.normals.len(),
            ) by {
                assert(vertex_refs_ok(s.vertices[i], s.positions.len(), s.tex_coords.len(), s.normals.len()));
            }
        }
        let s2 = ObjState { kind: LineKind::NewLine, ..s1 };
        if !(toks.len() == 0 || (toks[0].len() > 0 && toks[0][0] == 0x23)) {
            if keyword(toks[0]) == Some(LineKind::Face) {
                let s3 = ObjState { kind: LineKind::Face, ..s2 };
                if let Ok(cs) = face_fields(toks.drop_first()) {
                    if cs.len() >= 3 {
                        let m = (cs.len() - 1) as nat;
                        lemma_fan_shape(cs, m);
                        lemma_corners_step_inv(s3, fan(cs, m));
                        if let Ok(s4) = corners_step(s3, fan(cs, m)) {
                            assert(s4.indices.len() == s3.indices.len() + 3 * (m - 1));
                            assert(s4.indices.len() % 3 == 0);
                        }
                    }
                }
            }
        }
    }
}

proof fn lemma_lines_step_inv(ls: Seq<Seq<u8>>)
    ensures
        lines_step(ls) matches Ok(s) ==> state_inv(s),
    decreases ls.len(),
{
    if ls.len() > 0 {
        lemma_lines_step_inv(ls.drop_last());
        if let Ok(s) = lines_step(ls.drop_last()) {
            lemma_line_step_inv(s, split_ws(ls.last()));
        }
    } else {
        assert(state_inv(initial_obj_state()));
    }
}

/// A parsed mesh is well formed: its index list is made of whole triangles,
/// each index names one of its vertices, and each vertex names records
/// that the text defines.
pub proof fn lemma_parsed_mesh_wf(text: Seq<u8>)
    ensures
        spec_obj(text) matches Ok(m) ==> mesh_wf(m),
{
    lemma_lines_step_inv(lines(text));
    if let Ok(s) = lines_step(lines(text)) {
        let m = finish(s);
        assert forall|i: int| 0 <= i < m.vertices.len() implies vertex_refs_ok(
            #[trigger] m.vertices[i],
            m.positions.len(),
            m.tex_coords.len(),
            m.normals.len(),
        ) by {
            assert(vertex_refs_ok(s.vertices[i], s.positions.len(), s.tex_coords.len(), s.normals.len()));
        }
    }
}


/// Vertex de-duplication: the (position, texture, normal) keys of the
/// output vertices are pairwise distinct, one key per vertex.
pub proof fn lemma_vertex_keys_distinct(text: Seq<u8>)
    ensures
        lines_step(lines(text)) matches Ok(s) ==> keys_distinct(s.keys) && s.keys.len() == s.vertices.len(),
{
    lemma_lines_step_inv(lines(text));
}

/// Each output vertex of a parsed text follows its key: its position record
/// is the key's position index, and a texture or normal record it names is
/// the key's texture or normal index.
pub proof fn lemma_vertices_follow_keys(text: Seq<u8>)
    ensures
        lines_step(lines(text)) matches Ok(s) ==> {
            &&& s.keys.len() == s.vertices.len()
            &&& forall|i: int| 0 <= i < s.vertices.len() ==> #[trigger] s.vertices[i].position == s.keys[i].0 as usize
            &&& forall|i: int|
                0 <= i < s.vertices.len() ==> (#[trigger] s.vertices[i].tex_coord matches Some(x) ==> x == s.keys[i].1 as usize)
            &&& forall|i: int|
                0 <= i < s.vertices.len() ==> (#[trigger] s.vertices[i].normal matches Some(x) ==> x == s.keys[i].2 as usize)
        },
{
    lemma_lines_step_inv(lines(text));
    if let Ok(s) = lines_step(lines(text)) {
        assert forall|i: int| 0 <= i < s.vertices.len() implies #[trigger] s.vertices[i].position == s.keys[i].0 as usize by {
            assert(vertex_matches_key(s.vertices[i], s.keys[i]));
        }
        assert forall|i: int| 0 <= i < s.vertices.len() implies (#[trigger] s.vertices[i].tex_coord matches Some(x)
            ==> x == s.keys[i].1 as usize) by {
            assert(vertex_matches_key(s.vertices[i], s.keys[i]));
        }
        assert forall|i: int| 0 <= i < s.vertices.len() implies (#[trigger] s.vertices[i].normal matches Some(x)
            ==> x == s.keys[i].2 as usize) by {
            assert(vertex_matches_key(s.vertices[i], s.keys[i]));
        }
    }
}

/// One face corner (p, t, n), zero based, an absent texture or normal index
/// counting as 0. Without a position it is refused. Otherwise the index it
/// adds names the vertex whose key is (p, t, n): a known key adds no vertex;
/// a new key adds one vertex at the end, with position record p, texture
/// record t when t names a texture record read so far (none otherwise), and
/// normal record n when n names a normal record read so far (none
/// otherwise). A new key is refused when p names no position record read so
/// far, or when the vertex count has reached the largest `u32`.
pub proof fn lemma_corner_names_vertex(s: ObjState, c: Corner)
    requires
        s.keys.len() <= u32::MAX,
    ensures
        c.0 is None ==> corner_step(s, c) == Err::<ObjState, ObjError>(ObjError::MissingPosition),
        c.0 matches Some(p) ==> ({
            let t: nat = match c.1 {
                Some(i) => i,
                None => 0,
            };
            let n: nat = match c.2 {
                Some(i) => i,
                None => 0,
            };
            let key = (p, t, n);
            &&& s.keys.contains(key) ==> corner_step(s, c) is Ok
            &&& !s.keys.contains(key) && p >= s.positions.len() ==> corner_step(s, c) == Err::<ObjState, ObjError>(
                ObjError::PositionOutOfRange,
            )
            &&& !s.keys.contains(key) && p < s.positions.len() && s.keys.len() == u32::MAX ==> corner_step(s, c)
                == Err::<ObjState, ObjError>(ObjError::TooManyVertices)
            &&& !s.keys.contains(key) && p < s.positions.len() && s.keys.len() < u32::MAX ==> corner_step(s, c) is Ok
            &&& corner_step(s, c) matches Ok(s1) ==> {
                &&& s1.indices.len() == s.indices.len() + 1
                &&& s1.indices.drop_last() == s.indices
                &&& s1.indices.last() < s1.keys.len()
                &&& s1.keys[s1.indices.last() as int] == key
                &&& s1.positions == s.positions && s1.tex_coords == s.tex_coords && s1.normals == s.normals
                &&& s.keys.contains(key) ==> s1.keys == s.keys && s1.vertices == s.vertices
                &&& !s.keys.contains(key) ==> {
                    &&& s1.keys == s.keys.push(key)
                    &&& s1.vertices.drop_last() == s.vertices
                    &&& s1.vertices.len() == s.vertices.len() + 1
                    &&& s1.vertices.last().position == p as usize
                    &&& s1.vertices.last().tex_coord == (if t < s.tex_coords.len() {
                        Some(t as usize)
                    } else {
                        None
                    })
                    &&& s1.vertices.last().normal == (if n < s.normals.len() {
                        Some(n as usize)
                    } else {
                        None
                    })
                }
            }
        }),
{
    if let Some(p) = c.0 {
        let t: nat = match c.1 {
            Some(i) => i,
            None => 0,
        };
        let n: nat = match c.2 {
            Some(i) => i,
            None => 0,
        };
        let key = (p, t, n);
        if let Ok(s1) = corner_step(s, c) {
            if s.keys.contains(key) {
                let ki = key_index(s.keys, key);
                assert(0 <= ki < s.keys.len() && s.keys[ki] == key);
                assert(s1.indices.drop_last() =~= s.indices);
            } else {
                assert(s1.indices.drop_last() =~= s.indices);
                assert(s1.vertices.drop_last() =~= s.vertices);
            }
        }
    }
}

} // verus!
