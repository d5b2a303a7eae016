//! Text helpers shared by the lexer, the parser and the renderers: UTF-8
//! boundaries, substrings by byte offset, character vectors, Unicode
//! whitespace trimming and decimal formatting.
use vstd::prelude::*;
use vstd::string::*;
use vstd::utf8::*;

verus! {

/// `i` is a position of the byte sequence `b` where a character starts, or its end.
pub open spec fn at_char_start(b: Seq<u8>, i: int) -> bool {
    0 <= i <= b.len() && (i == b.len() || !is_continuation_byte(b[i]))
}

/// In valid UTF-8, a position where no continuation byte stands is a character boundary.
pub proof fn lemma_char_start_is_boundary(b: Seq<u8>, i: int)
    requires
        valid_utf8(b),
        at_char_start(b, i),
    ensures
        is_char_boundary(b, i),
{
    if i == b.len() {
        is_char_boundary_start_end_of_seq(b);
    } else {
        is_char_boundary_iff_not_is_continuation_byte(b, i);
    }
}

/// In valid UTF-8, the byte that follows an ASCII byte starts a character.
pub proof fn lemma_after_ascii(b: Seq<u8>, p: int)
    requires
        valid_utf8(b),
        0 <= p < b.len(),
        b[p] < 0x80,
    ensures
        at_char_start(b, p + 1),
{
    if p + 1 < b.len() {
        is_char_boundary_iff_not_is_continuation_byte(b, p);
        valid_utf8_split(b, p);
        let t = b.subrange(p, b.len() as int);
        let u = b.subrange(p + 1, b.len() as int);
        assert(t[0] == b[p]);
        assert(pop_first_scalar(t) =~= u);
        assert(valid_utf8(u));
        reveal_with_fuel(valid_utf8, 2);
        assert(valid_first_scalar(u));
        assert(u[0] == b[p + 1]);
    }
}

/// In valid UTF-8, position 0 starts a character.
pub proof fn lemma_start_char_start(b: Seq<u8>)
    requires
        valid_utf8(b),
    ensures
        at_char_start(b, 0),
{
    is_char_boundary_start_end_of_seq(b);
    if b.len() > 0 {
        is_char_boundary_iff_not_is_continuation_byte(b, 0);
    }
}

/// Positions that start a character stay so in a prefix that contains them.
pub proof fn lemma_char_start_prefix(b: Seq<u8>, e: int, a: int)
    requires
        at_char_start(b, a),
        at_char_start(b, e),
        a <= e,
    ensures
        at_char_start(b.subrange(0, e), a),
{
}

/// The text of the bytes `a..e` of `s`; both positions must start a character.
pub fn substring(s: &str, a: usize, e: usize) -> (r: String)
    requires
        a <= e,
        at_char_start(s.spec_bytes(), a as int),
        at_char_start(s.spec_bytes(), e as int),
    ensures
        valid_utf8(s.spec_bytes().subrange(a as int, e as int)),
        r@ == decode_utf8(s.spec_bytes().subrange(a as int, e as int)),
{
    let ghost b = s.spec_bytes();
    proof {
        encode_utf8_valid_utf8(s@);
        lemma_char_start_is_boundary(b, e as int);
    }
    let (x, _) = s.split_at(e);
    proof {
        encode_utf8_valid_utf8(x@);
        assert(x.spec_bytes() =~= b.subrange(0, e as int));
        lemma_char_start_prefix(b, e as int, a as int);
        lemma_char_start_is_boundary(x.spec_bytes(), a as int);
    }
    let (_, y) = x.split_at(a);
    proof {
        assert(y.spec_bytes() =~= b.subrange(a as int, e as int));
        encode_utf8_valid_utf8(y@);
        encode_utf8_decode_utf8(y@);
    }
    y.to_owned()
}

/// The characters of `s`, one by one.
pub fn to_chars(s: &str) -> (v: Vec<char>)
    ensures
        v@ == s@,
{
    let mut v: Vec<char> = Vec::new();
    for c in it: s.chars()
        invariant
            v@ == it.seq().take(it.index() as int),
    {
        v.push(c);
    }
    v
}

/// Appends one character to a string (`String::push`).
#[verifier::external_body]
pub fn push_char(s: &mut String, c: char)
    ensures
        final(s)@ == old(s)@.push(c),
{
    s.push(c);
}

/// The string made of the characters `lo..hi` of `v`.
pub fn string_of(v: &Vec<char>, lo: usize, hi: usize) -> (r: String)
    requires
        lo <= hi <= v.len(),
    ensures
        r@ == v@.subrange(lo as int, hi as int),
{
    let mut r = String::new();
    let mut i = lo;
    while i < hi
        invariant
            lo <= i <= hi <= v.len(),
            r@ == v@.subrange(lo as int, i as int),
        decreases hi - i,
    {
        push_char(&mut r, v[i]);
        i = i + 1;
        assert(r@ =~= v@.subrange(lo as int, i as int));
    }
    r
}

/// Whether two strings hold the same characters.
pub fn str_eq(a: &str, b: &str) -> (r: bool)
    ensures
        r == (a@ == b@),
{
    let x = a.as_bytes();
    let y = b.as_bytes();
    proof {
        encode_utf8_decode_utf8(a@);
        encode_utf8_decode_utf8(b@);
    }
    if x.len() != y.len() {
        return false;
    }
    let mut i: usize = 0;
    while i < x.len()
        invariant
            x@ == a.spec_bytes(),
            y@ == b.spec_bytes(),
            x@.len() == y@.len(),
            i <= x@.len(),
            forall|k: int| 0 <= k < i ==> x@[k] == y@[k],
        decreases x@.len() - i,
    {
        if x[i] != y[i] {
            assert(x@ != y@);
            return false;
        }
        i = i + 1;
    }
    assert(x@ =~= y@);
    true
}

/// Whether `c` has the Unicode `White_Space` property, which is what
/// `char::is_whitespace`, `str::trim` and `str::trim_start` test.
pub open spec fn is_ws_char(c: char) -> bool {
    let u = c as u32;
    ||| u == 0x20
    ||| (0x09 <= u <= 0x0d)
    ||| u == 0x85
    ||| u == 0xa0
    ||| u == 0x1680
    ||| (0x2000 <= u <= 0x200a)
    ||| u == 0x2028
    ||| u == 0x2029
    ||| u == 0x202f
    ||| u == 0x205f
    ||| u == 0x3000
}

/// `char::is_whitespace`.
pub fn is_whitespace(c: char) -> (r: bool)
    ensures
        r == is_ws_char(c),
{
    let u = c as u32;
    u == 0x20 || (0x09 <= u && u <= 0x0d) || u == 0x85 || u == 0xa0 || u == 0x1680 || (0x2000
        <= u && u <= 0x200a) || u == 0x2028 || u == 0x2029 || u == 0x202f || u == 0x205f || u
        == 0x3000
}

/// `str::trim_start`: `s` without its leading whitespace.
pub open spec fn trim_start(s: Seq<char>) -> Seq<char>
    decreases s.len(),
{
    if s.len() > 0 && is_ws_char(s[0]) {
        trim_start(s.drop_first())
    } else {
        s
    }
}

/// `s` without its trailing whitespace.
pub open spec fn trim_end(s: Seq<char>) -> Seq<char>
    decreases s.len(),
{
    if s.len() > 0 && is_ws_char(s.last()) {
        trim_end(s.drop_last())
    } else {
        s
    }
}

/// `str::trim`: `s` without leading and trailing whitespace.
pub open spec fn trim(s: Seq<char>) -> Seq<char> {
    trim_end(trim_start(s))
}

/// Whether `s` begins with `p`.
pub open spec fn starts_with(s: Seq<char>, p: Seq<char>) -> bool {
    p.len() <= s.len() && s.subrange(0, p.len() as int) == p
}

/// Whether `s` ends with `p`.
pub open spec fn ends_with(s: Seq<char>, p: Seq<char>) -> bool {
    p.len() <= s.len() && s.subrange(s.len() - p.len(), s.len() as int) == p
}

/// The first index `k` in `lo..=hi` such that the characters `k..hi` of `v`
/// are `trim_start` of the characters `lo..hi`.
pub fn skip_ws_chars(v: &Vec<char>, lo: usize, hi: usize) -> (k: usize)
    requires
        lo <= hi <= v.len(),
    ensures
        lo <= k <= hi,
        v@.subrange(k as int, hi as int) == trim_start(v@.subrange(lo as int, hi as int)),
{
    let mut k = lo;
    while k < hi && is_whitespace(v[k])
        invariant
            lo <= k <= hi <= v.len(),
            trim_start(v@.subrange(k as int, hi as int)) == trim_start(
                v@.subrange(lo as int, hi as int),
            ),
        decreases hi - k,
    {
        assert(v@.subrange(k as int, hi as int).drop_first() =~= v@.subrange(k + 1, hi as int));
        k = k + 1;
    }
    k
}

/// The last index `k` in `lo..=hi` such that the characters `lo..k` of `v`
/// are `trim_end` of the characters `lo..hi`.
pub fn skip_ws_chars_back(v: &Vec<char>, lo: usize, hi: usize) -> (k: usize)
    requires
        lo <= hi <= v.len(),
    ensures
        lo <= k <= hi,
        v@.subrange(lo as int, k as int) == trim_end(v@.subrange(lo as int, hi as int)),
{
    let mut k = hi;
    while k > lo && is_whitespace(v[k - 1])
        invariant
            lo <= k <= hi <= v.len(),
            trim_end(v@.subrange(lo as int, k as int)) == trim_end(
                v@.subrange(lo as int, hi as int),
            ),
        decreases k - lo,
    {
        assert(v@.subrange(lo as int, k as int).drop_last() =~= v@.subrange(lo as int, k - 1));
        k = k - 1;
    }
    k
}

/// The bounds `(a, b)` in `lo..=hi` such that the characters `a..b` of `v`
/// are `trim` of the characters `lo..hi`.
pub fn trim_bounds(v: &Vec<char>, lo: usize, hi: usize) -> (r: (usize, usize))
    requires
        lo <= hi <= v.len(),
    ensures
        lo <= r.0 <= r.1 <= hi,
        v@.subrange(r.0 as int, r.1 as int) == trim(v@.subrange(lo as int, hi as int)),
{
    let a = skip_ws_chars(v, lo, hi);
    let b = skip_ws_chars_back(v, a, hi);
    (a, b)
}

/// Whether the characters of `v` from `at` on begin with those of `p`.
pub fn chars_start_with(v: &Vec<char>, at: usize, hi: usize, p: &str) -> (r: bool)
    requires
        at <= hi <= v.len(),
    ensures
        r == starts_with(v@.subrange(at as int, hi as int), p@),
{
    let pc = to_chars(p);
    if pc.len() > hi - at {
        return false;
    }
    let mut i: usize = 0;
    while i < pc.len()
        invariant
            pc@ == p@,
            at + pc@.len() <= hi <= v.len(),
            i <= pc@.len(),
            forall|k: int| 0 <= k < i ==> v@[at + k] == pc@[k],
        decreases pc@.len() - i,
    {
        if v[at + i] != pc[i] {
            assert(v@.subrange(at as int, hi as int)[i as int] != p@[i as int]);
            return false;
        }
        i = i + 1;
    }
    assert(v@.subrange(at as int, hi as int).subrange(0, p@.len() as int) =~= p@);
    true
}

/// The decimal digit character of `d < 10`.
pub open spec fn digit_char(d: nat) -> char {
    ((d + 48) as u8) as char
}

/// The decimal representation of `n`, without leading zeros.
pub open spec fn decimal(n: nat) -> Seq<char>
    decreases n,
{
    if n < 10 {
        seq![digit_char(n)]
    } else {
        decimal(n / 10).push(digit_char(n % 10))
    }
}

/// Appends the decimal representation of `n` to `out`.
pub fn push_decimal(out: &mut String, n: usize)
    ensures
        final(out)@ == old(out)@ + decimal(n as nat),
    decreases n,
{
    if n >= 10 {
        push_decimal(out, n / 10);
    }
    let d: u8 = (n % 10) as u8;
    push_char(out, (d + 48u8) as char);
    assert(out@ =~= old(out)@ + decimal(n as nat));
}

} // verus!
